//! Error type shared by every diagram builder.

use vstd::prelude::*;

verus! {

/// Why a diagram could not be rendered.
#[derive(Clone, Debug, PartialEq, Eq)]
pub enum FigoError {
    /// A size or direction argument is out of range.
    InvalidDimensions(String),
    /// A required part of the diagram is missing.
    MissingFields(String),
    /// An input value is not supported.
    InvalidInput(String),
    /// Any other failure.
    General(String),
}

/// Result type of the diagram builders.
pub type Result<T> = core::result::Result<T, FigoError>;

} // verus!
