use vstd::prelude::*;

use crate::base::Pos;

verus! {

/// The polarity of a wire.
#[derive(Clone, Copy, Debug, PartialEq, Eq, Structural)]
pub enum WireKind {
    /// Passes the value through (`v`).
    Positive,
    /// Inverts the value (`!v`).
    Negative,
}

/// A directed edge that carries a signal from one cell to another.
#[derive(Clone, Copy, Debug, PartialEq, Eq, Structural)]
pub struct Wire {
    pub src: Pos,
    pub dst: Pos,
    pub kind: WireKind,
}

/// The value a wire of kind `kind` delivers when its source holds `v`.
pub open spec fn propagate_value(kind: WireKind, v: bool) -> bool {
    match kind {
        WireKind::Positive => v,
        WireKind::Negative => !v,
    }
}

impl Wire {
    /// Creates a wire.
    pub fn new(src: Pos, dst: Pos, kind: WireKind) -> (w: Wire)
        ensures
            w.src == src,
            w.dst == dst,
            w.kind == kind,
    {
        Wire { src, dst, kind }
    }

    /// The value delivered to the destination when the source holds `src_value`.
    pub fn propagate(&self, src_value: bool) -> (r: bool)
        ensures
            r == propagate_value(self.kind, src_value),
    {
        match self.kind {
            WireKind::Positive => src_value,
            WireKind::Negative => !src_value,
        }
    }
}

/// A negative wire delivers the opposite of what a positive wire delivers, and
/// two negative wires in a row give back the source value.
pub proof fn lemma_propagate_polarity(v: bool)
    ensures
        propagate_value(WireKind::Negative, v) == !propagate_value(WireKind::Positive, v),
        propagate_value(WireKind::Negative, propagate_value(WireKind::Negative, v)) == v,
        propagate_value(WireKind::Positive, v) == v,
{
}

} // verus!
