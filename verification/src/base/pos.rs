use vstd::prelude::*;

use crate::base::text::{empty_string, int_decimal, push_char, push_i64};

verus! {

/// A cell coordinate on the grid.
///
/// Positions are ordered lexicographically: first by `x`, then by `y`.
#[derive(Clone, Copy, Debug, PartialEq, Eq, Structural, Hash, PartialOrd, Ord)]
pub struct Pos {
    pub x: i32,
    pub y: i32,
}

/// The strict order on positions: by `x` first, then by `y`.
pub open spec fn pos_lt(a: Pos, b: Pos) -> bool {
    a.x < b.x || (a.x == b.x && a.y < b.y)
}

/// The text of a position as `(x, y)`.
pub open spec fn pos_text(p: Pos) -> Seq<char> {
    seq!['('] + int_decimal(p.x as int) + seq![',', ' '] + int_decimal(p.y as int) + seq![')']
}

impl Pos {
    /// Creates a position.
    pub fn new(x: i32, y: i32) -> (p: Pos)
        ensures
            p.x == x,
            p.y == y,
    {
        Pos { x, y }
    }

    /// Whether `self` comes strictly before `other` (by `x`, then by `y`).
    pub fn lt(&self, other: &Pos) -> (r: bool)
        ensures
            r == pos_lt(*self, *other),
    {
        self.x < other.x || (self.x == other.x && self.y < other.y)
    }

    /// The position formatted as `(x, y)`.
    pub fn to_string(&self) -> (s: String)
        ensures
            s@ == pos_text(*self),
    {
        let mut s = empty_string();
        push_char(&mut s, '(');
        push_i64(&mut s, self.x as i64);
        push_char(&mut s, ',');
        push_char(&mut s, ' ');
        push_i64(&mut s, self.y as i64);
        push_char(&mut s, ')');
        assert(s@ =~= pos_text(*self));
        s
    }
}

/// The order on positions is irreflexive, transitive and total: exactly one of
/// `a < b`, `a == b` and `b < a` holds.
pub proof fn lemma_pos_order(a: Pos, b: Pos, c: Pos)
    ensures
        !pos_lt(a, a),
        pos_lt(a, b) && pos_lt(b, c) ==> pos_lt(a, c),
        pos_lt(a, b) || a == b || pos_lt(b, a),
        !(pos_lt(a, b) && pos_lt(b, a)),
{
}

} // verus!
