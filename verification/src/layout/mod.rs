//! Layout engine: nodes, connectors, routing geometry, side rails, and
//! riding-label placement shared by the diagram modules.

pub mod routing;
pub mod riding;
pub mod side_route;
pub mod node;
pub mod connector;
