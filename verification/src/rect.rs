//! Integer rectangles shared by atlas pages and glyph atlases.

use vstd::prelude::*;

verus! {

/// An axis-aligned rectangle of pixels, its maximum corner exclusive.
#[derive(Clone, Copy, Debug, PartialEq, Eq, Structural)]
pub struct URect {
    /// First column.
    pub min_x: u32,
    /// First row.
    pub min_y: u32,
    /// Column after the last.
    pub max_x: u32,
    /// Row after the last.
    pub max_y: u32,
}

impl URect {
    /// The rectangle from `(min_x, min_y)` to `(max_x, max_y)`.
    pub fn new(min_x: u32, min_y: u32, max_x: u32, max_y: u32) -> (r: URect)
        ensures
            r == (URect { min_x, min_y, max_x, max_y }),
    {
        URect { min_x, min_y, max_x, max_y }
    }
}

} // verus!
