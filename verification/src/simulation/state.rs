use vstd::prelude::*;

use crate::base::{Pos, SimulationError};
use crate::circuit::Circuit;
use crate::simulation::engine::{cell_lookup, cells_with, CellMap};

verus! {

/// The current value of each cell.
#[derive(Debug, PartialEq, Eq)]
pub struct SimState {
    values: CellMap,
}

impl View for SimState {
    type V = Seq<(Pos, bool)>;

    closed spec fn view(&self) -> Seq<(Pos, bool)> {
        self.values@
    }
}

impl Clone for SimState {
    fn clone(&self) -> (r: Self)
        ensures
            r@ == self@,
    {
        SimState { values: self.values.clone() }
    }
}

impl SimState {
    /// A state holding every cell of `circuit`, in increasing order, each at
    /// `false`.
    pub fn from_circuit(circuit: &Circuit) -> (s: SimState)
        ensures
            s@ == circuit@.cells.map_values(|p: Pos| (p, false)),
    {
        let cells = circuit.sorted_cells();
        let mut entries: Vec<(Pos, bool)> = Vec::new();
        let mut i: usize = 0;
        while i < cells.len()
            invariant
                i <= cells@.len(),
                entries@ == cells@.subrange(0, i as int).map_values(|p: Pos| (p, false)),
            decreases cells@.len() - i,
        {
            entries.push((cells[i], false));
            i = i + 1;
            assert(entries@ =~= cells@.subrange(0, i as int).map_values(|p: Pos| (p, false)));
        }
        assert(cells@.subrange(0, cells@.len() as int) =~= cells@);
        SimState { values: CellMap::from_entries(entries) }
    }

    /// The value of `pos`, if it is a cell.
    pub fn get(&self, pos: Pos) -> (r: Option<bool>)
        ensures
            r == cell_lookup(self@, pos),
    {
        match self.values.get(&pos) {
            Some(v) => Some(*v),
            None => None,
        }
    }

    /// Gives `value` to the cell `pos`; an unknown cell is an error and
    /// changes nothing.
    pub fn set(&mut self, pos: Pos, value: bool) -> (r: Result<(), SimulationError>)
        ensures
            match cell_lookup(old(self)@, pos) {
                Some(_) => r is Ok && final(self)@ == cells_with(old(self)@, pos, value),
                None => r == Err::<(), SimulationError>(SimulationError::UnknownCell(pos))
                    && final(self)@ == old(self)@,
            },
    {
        if self.values.contains_key(&pos) {
            self.values.set_value(pos, value);
            Ok(())
        } else {
            Err(SimulationError::UnknownCell(pos))
        }
    }

    /// The values by cell.
    pub fn values(&self) -> (m: &CellMap)
        ensures
            m@ == self@,
    {
        &self.values
    }
}

} // verus!
