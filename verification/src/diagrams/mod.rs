//! The diagram builders.

pub mod arrow;
pub mod box_art;
pub mod gantt;
pub mod sequence;
pub mod table;
pub mod flowchart_shape;
pub mod flowchart_riding;
pub mod flowchart;
pub mod state;
