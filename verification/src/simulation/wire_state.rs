use std::collections::HashMap;

use vstd::prelude::*;

use crate::base::pos::pos_lt;
use crate::circuit::circuit::{incoming_of, input_views, is_input_target, CircuitView};
use crate::circuit::component::input_target;
use crate::circuit::wire::Wire;
use crate::circuit::{Circuit, InputComponent};

verus! {

broadcast use vstd::std_specs::hash::group_hash_axioms;

/// Whether a wire goes backward in the cell order (its destination comes
/// first), so that it delivers the previous tick's value.
pub open spec fn is_backward(w: Wire) -> bool {
    pos_lt(w.dst, w.src)
}

/// The number of backward wires among the first `n`.
pub open spec fn backward_before(ws: Seq<Wire>, n: nat) -> nat
    decreases n,
{
    if n == 0 {
        0
    } else {
        backward_before(ws, (n - 1) as nat) + (if is_backward(ws[n - 1]) {
            1nat
        } else {
            0nat
        })
    }
}

/// Whether the `k`-th cell has neither an incoming wire nor an input
/// component, so that it keeps its value from tick to tick.
pub open spec fn is_stateless(c: CircuitView, k: int) -> bool {
    incoming_of(c.wires, c.cells[k]).len() == 0 && !is_input_target(c.inputs, c.cells[k])
}

/// The number of stateless cells among the first `n`.
pub open spec fn stateless_before(c: CircuitView, n: nat) -> nat
    decreases n,
{
    if n == 0 {
        0
    } else {
        stateless_before(c, (n - 1) as nat) + (if is_stateless(c, n - 1) {
            1nat
        } else {
            0nat
        })
    }
}

/// What a delayed-value state is: one slot per backward wire and per
/// stateless cell, and where each of them is.
pub struct WireStateView {
    pub delayed: Seq<bool>,
    pub wire_slots: Map<usize, usize>,
    pub cell_slots: Map<usize, usize>,
}

/// The slots of a circuit: the backward wires come first, in wire order, then
/// the stateless cells, in cell order; every slot starts at `false`.
pub open spec fn slots_of(c: CircuitView) -> WireStateView {
    let nw = backward_before(c.wires, c.wires.len());
    WireStateView {
        delayed: Seq::new(nw + stateless_before(c, c.cells.len()), |k: int| false),
        wire_slots: Map::new(
            |j: usize| j < c.wires.len() && is_backward(c.wires[j as int]),
            |j: usize| backward_before(c.wires, j as nat) as usize,
        ),
        cell_slots: Map::new(
            |k: usize| k < c.cells.len() && is_stateless(c, k as int),
            |k: usize| (nw + stateless_before(c, k as nat)) as usize,
        ),
    }
}

/// Every slot of `v` names a place of its delayed values, and no two wires
/// or cells share one.
pub open spec fn slots_ok(v: WireStateView) -> bool {
    &&& forall|j: usize|
        #[trigger] v.wire_slots.contains_key(j) ==> v.wire_slots[j] < v.delayed.len()
    &&& forall|k: usize|
        #[trigger] v.cell_slots.contains_key(k) ==> v.cell_slots[k] < v.delayed.len()
    &&& forall|j1: usize, j2: usize|
        #[trigger] v.wire_slots.contains_key(j1) && #[trigger] v.wire_slots.contains_key(j2) && j1
            != j2 ==> v.wire_slots[j1] != v.wire_slots[j2]
    &&& forall|k1: usize, k2: usize|
        #[trigger] v.cell_slots.contains_key(k1) && #[trigger] v.cell_slots.contains_key(k2) && k1
            != k2 ==> v.cell_slots[k1] != v.cell_slots[k2]
    &&& forall|j: usize, k: usize|
        #[trigger] v.wire_slots.contains_key(j) && #[trigger] v.cell_slots.contains_key(k)
            ==> v.wire_slots[j] != v.cell_slots[k]
}

/// A count never exceeds the number of items counted.
proof fn lemma_counts_bounded(c: CircuitView, n: nat, m: nat)
    requires
        n <= c.wires.len(),
        m <= c.cells.len(),
    ensures
        backward_before(c.wires, n) <= n,
        stateless_before(c, m) <= m,
        forall|j: nat| j <= n ==> #[trigger] backward_before(c.wires, j) <= backward_before(c.wires, n),
        forall|k: nat| k <= m ==> #[trigger] stateless_before(c, k) <= stateless_before(c, m),
    decreases n + m,
{
    if n > 0 {
        lemma_counts_bounded(c, (n - 1) as nat, m);
    }
    if m > 0 {
        lemma_counts_bounded(c, n, (m - 1) as nat);
    }
}

/// Counting up to a place past an item that is counted gives more than
/// counting up to that item.
proof fn lemma_counts_grow(c: CircuitView, n: nat, m: nat)
    ensures
        forall|j: nat, j2: nat|
            j < j2 <= n && j < c.wires.len() && is_backward(c.wires[j as int]) ==> #[trigger] backward_before(
                c.wires,
                j,
            ) < #[trigger] backward_before(c.wires, j2),
        forall|k: nat, k2: nat|
            k < k2 <= m && k < c.cells.len() && is_stateless(c, k as int) ==> #[trigger] stateless_before(
                c,
                k,
            ) < #[trigger] stateless_before(c, k2),
    decreases n + m,
{
    if n > 0 {
        lemma_counts_grow(c, (n - 1) as nat, m);
        assert forall|j: nat, j2: nat|
            j < j2 <= n && j < c.wires.len() && is_backward(
                c.wires[j as int],
            ) implies #[trigger] backward_before(c.wires, j) < #[trigger] backward_before(
            c.wires,
            j2,
        ) by {
            if j2 == n && j < n - 1 {
                assert(backward_before(c.wires, j) < backward_before(c.wires, (n - 1) as nat));
            }
        }
    }
    if m > 0 {
        lemma_counts_grow(c, n, (m - 1) as nat);
        assert forall|k: nat, k2: nat|
            k < k2 <= m && k < c.cells.len() && is_stateless(
                c,
                k as int,
            ) implies #[trigger] stateless_before(c, k) < #[trigger] stateless_before(c, k2) by {
            if k2 == m && k < m - 1 {
                assert(stateless_before(c, k) < stateless_before(c, (m - 1) as nat));
            }
        }
    }
}

/// Each backward wire and each stateless cell has a slot of its own: no two
/// of them share one, and every slot is a place of the delayed values.
pub proof fn lemma_slots_distinct(c: CircuitView)
    requires
        c.wires.len() + c.cells.len() <= usize::MAX,
    ensures
        forall|j: usize|
            #[trigger] slots_of(c).wire_slots.contains_key(j) ==> slots_of(c).wire_slots[j]
                < slots_of(c).delayed.len(),
        forall|k: usize|
            #[trigger] slots_of(c).cell_slots.contains_key(k) ==> slots_of(c).cell_slots[k]
                < slots_of(c).delayed.len(),
        forall|j1: usize, j2: usize|
            #[trigger] slots_of(c).wire_slots.contains_key(j1) && #[trigger] slots_of(
                c,
            ).wire_slots.contains_key(j2) && j1 != j2 ==> slots_of(c).wire_slots[j1] != slots_of(
                c,
            ).wire_slots[j2],
        forall|k1: usize, k2: usize|
            #[trigger] slots_of(c).cell_slots.contains_key(k1) && #[trigger] slots_of(
                c,
            ).cell_slots.contains_key(k2) && k1 != k2 ==> slots_of(c).cell_slots[k1] != slots_of(
                c,
            ).cell_slots[k2],
        forall|j: usize, k: usize|
            #[trigger] slots_of(c).wire_slots.contains_key(j) && #[trigger] slots_of(
                c,
            ).cell_slots.contains_key(k) ==> slots_of(c).wire_slots[j] != slots_of(c).cell_slots[k],
{
    let nw = backward_before(c.wires, c.wires.len());
    let s = slots_of(c);
    lemma_counts_bounded(c, c.wires.len(), c.cells.len());
    lemma_counts_grow(c, c.wires.len(), c.cells.len());
    assert forall|j: usize| #[trigger] s.wire_slots.contains_key(j) implies s.wire_slots[j]
        < s.delayed.len() && s.wire_slots[j] < nw by {
        assert(backward_before(c.wires, j as nat) < backward_before(c.wires, c.wires.len()));
    }
    assert forall|k: usize| #[trigger] s.cell_slots.contains_key(k) implies s.cell_slots[k]
        < s.delayed.len() && s.cell_slots[k] >= nw by {
        assert(stateless_before(c, k as nat) < stateless_before(c, c.cells.len()));
    }
    assert forall|j1: usize, j2: usize|
        #[trigger] s.wire_slots.contains_key(j1) && #[trigger] s.wire_slots.contains_key(j2) && j1
            != j2 implies s.wire_slots[j1] != s.wire_slots[j2] by {
        if j1 < j2 {
            assert(backward_before(c.wires, j1 as nat) < backward_before(c.wires, j2 as nat));
        } else {
            assert(backward_before(c.wires, j2 as nat) < backward_before(c.wires, j1 as nat));
        }
    }
    assert forall|k1: usize, k2: usize|
        #[trigger] s.cell_slots.contains_key(k1) && #[trigger] s.cell_slots.contains_key(k2) && k1
            != k2 implies s.cell_slots[k1] != s.cell_slots[k2] by {
        if k1 < k2 {
            assert(stateless_before(c, k1 as nat) < stateless_before(c, k2 as nat));
        } else {
            assert(stateless_before(c, k2 as nat) < stateless_before(c, k1 as nat));
        }
    }
}

/// The previous-tick values that a simulation driven by wires needs: one for
/// each backward wire and one for each cell that nothing drives.
#[derive(Debug)]
pub struct WireSimState {
    delayed_values: Vec<bool>,
    wire_to_slot: HashMap<usize, usize>,
    cell_to_slot: HashMap<usize, usize>,
}

impl View for WireSimState {
    type V = WireStateView;

    closed spec fn view(&self) -> WireStateView {
        WireStateView {
            delayed: self.delayed_values@,
            wire_slots: self.wire_to_slot@,
            cell_slots: self.cell_to_slot@,
        }
    }
}

impl WireSimState {
    /// Every slot names a place of the delayed values, and no two wires or
    /// cells share one.
    #[verifier::type_invariant]
    closed spec fn slots_in_range(self) -> bool {
        &&& forall|j: usize|
            #[trigger] self.wire_to_slot@.contains_key(j) ==> self.wire_to_slot@[j]
                < self.delayed_values@.len()
        &&& forall|k: usize|
            #[trigger] self.cell_to_slot@.contains_key(k) ==> self.cell_to_slot@[k]
                < self.delayed_values@.len()
        &&& forall|j1: usize, j2: usize|
            #[trigger] self.wire_to_slot@.contains_key(j1) && #[trigger] self.wire_to_slot@.contains_key(
                j2,
            ) && j1 != j2 ==> self.wire_to_slot@[j1] != self.wire_to_slot@[j2]
        &&& forall|k1: usize, k2: usize|
            #[trigger] self.cell_to_slot@.contains_key(k1) && #[trigger] self.cell_to_slot@.contains_key(
                k2,
            ) && k1 != k2 ==> self.cell_to_slot@[k1] != self.cell_to_slot@[k2]
        &&& forall|j: usize, k: usize|
            #[trigger] self.wire_to_slot@.contains_key(j) && #[trigger] self.cell_to_slot@.contains_key(k)
                ==> self.wire_to_slot@[j] != self.cell_to_slot@[k]
    }

    /// The slots of `circuit`, each at `false`. (The wires and cells together
    /// must be countable in a `usize`.)
    pub fn from_circuit(circuit: &Circuit) -> (s: WireSimState)
        requires
            circuit@.wires.len() + circuit@.cells.len() <= usize::MAX,
        ensures
            s@ == slots_of(circuit@),
            slots_ok(s@),
    {
        circuit.wf();
        let ghost c = circuit@;
        let wires = circuit.wires();
        let mut wire_to_slot: HashMap<usize, usize> = HashMap::new();
        let mut cell_to_slot: HashMap<usize, usize> = HashMap::new();
        let mut slot_count: usize = 0;
        let mut wire_index: usize = 0;
        while wire_index < wires.len()
            invariant
                wires@ == c.wires,
                wire_index <= wires@.len(),
                slot_count == backward_before(c.wires, wire_index as nat),
                slot_count <= wire_index,
                wire_to_slot@ == Map::new(
                    |j: usize| j < wire_index && is_backward(c.wires[j as int]),
                    |j: usize| backward_before(c.wires, j as nat) as usize,
                ),
            decreases wires@.len() - wire_index,
        {
            let wire = wires[wire_index];
            if wire.dst.lt(&wire.src) {
                wire_to_slot.insert(wire_index, slot_count);
                slot_count = slot_count + 1;
            }
            wire_index = wire_index + 1;
            assert(wire_to_slot@ =~= Map::new(
                |j: usize| j < wire_index && is_backward(c.wires[j as int]),
                |j: usize| backward_before(c.wires, j as nat) as usize,
            ));
        }
        let cells = circuit.sorted_cells();
        let ghost nw = slot_count as nat;
        let mut cell_index: usize = 0;
        while cell_index < cells.len()
            invariant
                cells@ == c.cells,
                circuit@ == c,
                c.wires.len() + c.cells.len() <= usize::MAX,
                cell_index <= cells@.len(),
                nw == backward_before(c.wires, c.wires.len()),
                nw <= c.wires.len(),
                slot_count == nw + stateless_before(c, cell_index as nat),
                slot_count <= nw + cell_index,
                wire_to_slot@ == slots_of(c).wire_slots,
                cell_to_slot@ == Map::new(
                    |k: usize| k < cell_index && is_stateless(c, k as int),
                    |k: usize| (nw + stateless_before(c, k as nat)) as usize,
                ),
            decreases cells@.len() - cell_index,
        {
            let pos = cells[cell_index];
            let has_incoming = circuit.incoming_indices(pos).len() > 0;
            let has_input = Self::drives(circuit, pos);
            if !has_incoming && !has_input {
                cell_to_slot.insert(cell_index, slot_count);
                slot_count = slot_count + 1;
            }
            cell_index = cell_index + 1;
            assert(cell_to_slot@ =~= Map::new(
                |k: usize| k < cell_index && is_stateless(c, k as int),
                |k: usize| (nw + stateless_before(c, k as nat)) as usize,
            ));
        }
        let mut delayed_values: Vec<bool> = Vec::new();
        let mut i: usize = 0;
        while i < slot_count
            invariant
                i <= slot_count,
                delayed_values@ == Seq::new(i as nat, |k: int| false),
            decreases slot_count - i,
        {
            delayed_values.push(false);
            i = i + 1;
            assert(delayed_values@ =~= Seq::new(i as nat, |k: int| false));
        }
        assert(cell_to_slot@ =~= slots_of(c).cell_slots);
        assert(delayed_values@ =~= slots_of(c).delayed);
        proof {
            lemma_slots_distinct(c);
        }
        WireSimState { delayed_values, wire_to_slot, cell_to_slot }
    }

    /// Whether some input component of `circuit` aims at `pos`.
    fn drives(circuit: &Circuit, pos: crate::base::Pos) -> (b: bool)
        ensures
            b == is_input_target(circuit@.inputs, pos),
    {
        let inputs = circuit.inputs();
        let mut k: usize = 0;
        while k < inputs.len()
            invariant
                k <= inputs@.len(),
                input_views(inputs@) == circuit@.inputs,
                forall|j: int| 0 <= j < k ==> input_target(#[trigger] circuit@.inputs[j]) != pos,
            decreases inputs@.len() - k,
        {
            assert(input_views(inputs@)[k as int] == inputs@[k as int]@);
            if inputs[k].target() == pos {
                assert(input_target(circuit@.inputs[k as int]) == pos);
                return true;
            }
            k = k + 1;
        }
        false
    }

    /// The previous-tick value of the wire `wire_index`, if it is backward.
    pub fn get_delayed_wire(&self, wire_index: usize) -> (r: Option<bool>)
        ensures
            slots_ok(self@),
            r == (if self@.wire_slots.contains_key(wire_index) {
                Some(self@.delayed[self@.wire_slots[wire_index] as int])
            } else {
                None
            }),
    {
        proof {
            use_type_invariant(self);
        }
        match self.wire_to_slot.get(&wire_index) {
            Some(slot) => Some(self.delayed_values[*slot]),
            None => None,
        }
    }

    /// The previous-tick value of the cell `cell_index`, if it is stateless.
    pub fn get_stateless_cell(&self, cell_index: usize) -> (r: Option<bool>)
        ensures
            slots_ok(self@),
            r == (if self@.cell_slots.contains_key(cell_index) {
                Some(self@.delayed[self@.cell_slots[cell_index] as int])
            } else {
                None
            }),
    {
        proof {
            use_type_invariant(self);
        }
        match self.cell_to_slot.get(&cell_index) {
            Some(slot) => Some(self.delayed_values[*slot]),
            None => None,
        }
    }

    /// Stores the value of the wire `wire_index`, if it is backward.
    pub fn update_wire(&mut self, wire_index: usize, value: bool)
        ensures
            slots_ok(final(self)@),
            final(self)@.wire_slots == old(self)@.wire_slots,
            final(self)@.cell_slots == old(self)@.cell_slots,
            final(self)@.delayed == (if old(self)@.wire_slots.contains_key(wire_index) {
                old(self)@.delayed.update(old(self)@.wire_slots[wire_index] as int, value)
            } else {
                old(self)@.delayed
            }),
            forall|i: usize|
                i != wire_index && #[trigger] old(self)@.wire_slots.contains_key(i) ==> final(self)@.delayed[old(self)@.wire_slots[i] as int] == old(self)@.delayed[old(self)@.wire_slots[i] as int],
            forall|i: usize|
                #[trigger] old(self)@.cell_slots.contains_key(i) ==> final(self)@.delayed[old(self)@.cell_slots[i] as int] == old(self)@.delayed[old(self)@.cell_slots[i] as int],
    {
        proof {
            use_type_invariant(&*self);
        }
        let slot = match self.wire_to_slot.get(&wire_index) {
            Some(slot) => Some(*slot),
            None => None,
        };
        if let Some(slot) = slot {
            self.delayed_values[slot] = value;
        }
    }

    /// Stores the value of the cell `cell_index`, if it is stateless.
    pub fn update_cell(&mut self, cell_index: usize, value: bool)
        ensures
            slots_ok(final(self)@),
            final(self)@.wire_slots == old(self)@.wire_slots,
            final(self)@.cell_slots == old(self)@.cell_slots,
            final(self)@.delayed == (if old(self)@.cell_slots.contains_key(cell_index) {
                old(self)@.delayed.update(old(self)@.cell_slots[cell_index] as int, value)
            } else {
                old(self)@.delayed
            }),
            forall|i: usize|
                i != cell_index && #[trigger] old(self)@.cell_slots.contains_key(i) ==> final(self)@.delayed[old(self)@.cell_slots[i] as int] == old(self)@.delayed[old(self)@.cell_slots[i] as int],
            forall|i: usize|
                #[trigger] old(self)@.wire_slots.contains_key(i) ==> final(self)@.delayed[old(self)@.wire_slots[i] as int] == old(self)@.delayed[old(self)@.wire_slots[i] as int],
    {
        proof {
            use_type_invariant(&*self);
        }
        let slot = match self.cell_to_slot.get(&cell_index) {
            Some(slot) => Some(*slot),
            None => None,
        };
        if let Some(slot) = slot {
            self.delayed_values[slot] = value;
        }
    }
}

} // verus!
