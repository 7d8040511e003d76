//! What a widget is painted with.

use vstd::prelude::*;
use crate::style::Charset;

verus! {

/// Character set and color mode a widget paints with.
#[derive(Clone, Copy, Debug)]
pub struct PaintContext {
    pub charset: Charset,
    pub color: bool,
}

} // verus!
