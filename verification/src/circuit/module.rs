use std::rc::Rc;

use vstd::prelude::*;

use crate::base::Pos;
use crate::circuit::circuit::Circuit;
use crate::circuit::shared::share_rc;

verus! {

/// The ports of a module instance.
pub struct ModuleView {
    /// Input cells, in the enclosing circuit.
    pub input: Seq<Pos>,
    /// Output cells, in the enclosing circuit.
    pub output: Seq<Pos>,
    /// Input interface cells, in the sub-circuit.
    pub sub_input: Seq<Pos>,
    /// Output interface cells, in the sub-circuit.
    pub sub_output: Seq<Pos>,
}

/// A module instance whose sub-circuit has been resolved: the sub-circuit and
/// the mapping of its interface cells to cells of the enclosing circuit.
#[derive(Debug)]
pub struct ResolvedModule {
    circuit: Rc<Circuit>,
    input: Vec<Pos>,
    output: Vec<Pos>,
    sub_input: Vec<Pos>,
    sub_output: Vec<Pos>,
}

impl View for ResolvedModule {
    type V = ModuleView;

    closed spec fn view(&self) -> ModuleView {
        ModuleView {
            input: self.input@,
            output: self.output@,
            sub_input: self.sub_input@,
            sub_output: self.sub_output@,
        }
    }
}

impl Clone for ResolvedModule {
    fn clone(&self) -> (r: Self)
        ensures
            r@ == self@,
            r.spec_circuit() == self.spec_circuit(),
    {
        let input = self.input.clone();
        let output = self.output.clone();
        let sub_input = self.sub_input.clone();
        let sub_output = self.sub_output.clone();
        assert(input@ =~= self.input@);
        assert(output@ =~= self.output@);
        assert(sub_input@ =~= self.sub_input@);
        assert(sub_output@ =~= self.sub_output@);
        ResolvedModule { circuit: share_rc(&self.circuit), input, output, sub_input, sub_output }
    }
}

/// A module instance is built around its sub-circuit, which is therefore
/// smaller than the instance.
pub proof fn lemma_sub_circuit_smaller(m: ResolvedModule)
    ensures
        decreases_to!(m => m.spec_circuit()),
{
}

impl ResolvedModule {
    /// The sub-circuit.
    pub closed spec fn spec_circuit(&self) -> Circuit {
        *self.circuit
    }

    /// Creates a module instance.
    pub fn new(
        circuit: Circuit,
        input: Vec<Pos>,
        output: Vec<Pos>,
        sub_input: Vec<Pos>,
        sub_output: Vec<Pos>,
    ) -> (m: ResolvedModule)
        ensures
            m.spec_circuit() == circuit,
            m@.input == input@,
            m@.output == output@,
            m@.sub_input == sub_input@,
            m@.sub_output == sub_output@,
    {
        ResolvedModule { circuit: Rc::new(circuit), input, output, sub_input, sub_output }
    }

    /// Creates a module instance on a sub-circuit that other instances share.
    pub fn with_shared(
        circuit: &Rc<Circuit>,
        input: Vec<Pos>,
        output: Vec<Pos>,
        sub_input: Vec<Pos>,
        sub_output: Vec<Pos>,
    ) -> (m: ResolvedModule)
        ensures
            m.spec_circuit() == **circuit,
            m@.input == input@,
            m@.output == output@,
            m@.sub_input == sub_input@,
            m@.sub_output == sub_output@,
    {
        ResolvedModule { circuit: share_rc(circuit), input, output, sub_input, sub_output }
    }

    /// The sub-circuit.
    pub fn circuit(&self) -> (c: &Circuit)
        ensures
            *c == self.spec_circuit(),
    {
        &*self.circuit
    }

    /// Input cells, in the enclosing circuit.
    pub fn input(&self) -> (s: &[Pos])
        ensures
            s@ == self@.input,
    {
        self.input.as_slice()
    }

    /// Output cells, in the enclosing circuit.
    pub fn output(&self) -> (s: &[Pos])
        ensures
            s@ == self@.output,
    {
        self.output.as_slice()
    }

    /// Input interface cells, in the sub-circuit.
    pub fn sub_input(&self) -> (s: &[Pos])
        ensures
            s@ == self@.sub_input,
    {
        self.sub_input.as_slice()
    }

    /// Output interface cells, in the sub-circuit.
    pub fn sub_output(&self) -> (s: &[Pos])
        ensures
            s@ == self@.sub_output,
    {
        self.sub_output.as_slice()
    }
}

} // verus!
