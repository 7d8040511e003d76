//! figo: text diagrams (boxes, tables, arrows, flowcharts, sequence,
//! state, and Gantt charts) drawn on a layered character canvas.

pub mod style;
pub mod error;
pub mod width;
pub mod geom;
pub mod layout;
pub mod canvas;
pub mod text;
pub mod diagrams;
pub mod commands;
pub mod render;
