//! Plain geometry values: rectangles and the box constraints that parents
//! hand down to children during layout.

use vstd::prelude::*;

verus! {

/// Final geometry of an entity: a position and a size.
#[derive(Clone, Copy, PartialEq, Eq, Structural, Debug)]
pub struct Rect {
    pub x: i32,
    pub y: i32,
    pub width: u32,
    pub height: u32,
}

impl Rect {
    pub fn new(x: i32, y: i32, width: u32, height: u32) -> (r: Rect)
        ensures
            r == (Rect { x, y, width, height }),
    {
        Rect { x, y, width, height }
    }
}

/// Size bounds propagated from parent to child during layout negotiation.
#[derive(Clone, Copy, PartialEq, Eq, Structural, Debug)]
pub struct BoxConstraints {
    pub min_width: u32,
    pub max_width: u32,
    pub min_height: u32,
    pub max_height: u32,
}

impl BoxConstraints {
    /// The bounds are consistent: no minimum exceeds its maximum.
    pub open spec fn wf(self) -> bool {
        self.min_width <= self.max_width && self.min_height <= self.max_height
    }

    pub fn new(min_width: u32, max_width: u32, min_height: u32, max_height: u32) -> (r:
        BoxConstraints)
        ensures
            r == (BoxConstraints { min_width, max_width, min_height, max_height }),
    {
        BoxConstraints { min_width, max_width, min_height, max_height }
    }
}

} // verus!
