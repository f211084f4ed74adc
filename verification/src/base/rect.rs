use vstd::prelude::*;

use crate::base::Pos;

verus! {

/// A rectangular region; both corners are included.
#[derive(Clone, Copy, Debug, PartialEq, Eq, Structural)]
pub struct Rect {
    pub min: Pos,
    pub max: Pos,
}

/// Whether `pos` lies inside `r` (both bounds included).
pub open spec fn rect_contains(r: Rect, pos: Pos) -> bool {
    r.min.x <= pos.x <= r.max.x && r.min.y <= pos.y <= r.max.y
}

impl Rect {
    /// Creates a rectangle from its two corners.
    pub fn new(min: Pos, max: Pos) -> (r: Rect)
        ensures
            r.min == min,
            r.max == max,
    {
        Rect { min, max }
    }

    /// Whether `pos` lies inside the rectangle (both bounds included).
    pub fn contains(&self, pos: Pos) -> (b: bool)
        ensures
            b == rect_contains(*self, pos),
    {
        pos.x >= self.min.x && pos.x <= self.max.x && pos.y >= self.min.y && pos.y <= self.max.y
    }
}

/// A rectangle contains a position exactly when the position lies between its
/// corners on both axes: a position above, below, left or right of it is not
/// contained, and its corners are whenever `min` is above and left of `max`.
pub proof fn lemma_rect_contains(r: Rect, p: Pos)
    ensures
        rect_contains(r, p) ==> r.min.x <= p.x && p.x <= r.max.x,
        rect_contains(r, p) ==> r.min.y <= p.y && p.y <= r.max.y,
        p.y < r.min.y || p.y > r.max.y ==> !rect_contains(r, p),
        p.x < r.min.x || p.x > r.max.x ==> !rect_contains(r, p),
        r.min.x <= p.x <= r.max.x && r.min.y <= p.y <= r.max.y ==> rect_contains(r, p),
        r.min.x <= r.max.x && r.min.y <= r.max.y ==> rect_contains(r, r.min) && rect_contains(
            r,
            r.max,
        ),
{
}

} // verus!
