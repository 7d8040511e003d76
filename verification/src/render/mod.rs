//! Drawing surfaces and the widgets painted on them.

pub mod surface;
pub mod widget;
pub mod connector;
