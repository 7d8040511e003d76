//! State machine diagrams with automatic layered layout.

pub mod types;
pub mod layout;
pub mod avoidance;
pub mod label_rows;
pub mod spacing;
pub mod drawing;
pub mod render;
pub mod sugiyama;
pub mod riding_plan;
pub mod transition_label;

pub use render::StateDiagram;
pub use types::{StateNode, StateType, Transition};
