use vstd::prelude::*;

use crate::base::pos_set::sorted_strict;
use crate::base::{CircuitError, Pos, PosSet};
use crate::circuit::circuit::{built_with_modules, Circuit};
use crate::circuit::component::{Input, Output};
use crate::circuit::module::ResolvedModule;
use crate::circuit::wire::{Wire, WireKind};

verus! {

/// What a builder has collected so far.
pub struct BuilderView {
    pub cells: Seq<Pos>,
    pub wires: Seq<Wire>,
    pub inputs: Seq<Input>,
    pub outputs: Seq<Output>,
    pub modules: Seq<ResolvedModule>,
}

/// Collects the parts of a circuit; the endpoints of each added wire become
/// cells.
pub struct CircuitBuilder {
    cells: PosSet,
    wires: Vec<Wire>,
    inputs: Vec<Input>,
    outputs: Vec<Output>,
    modules: Vec<ResolvedModule>,
}

impl View for CircuitBuilder {
    type V = BuilderView;

    closed spec fn view(&self) -> BuilderView {
        BuilderView {
            cells: self.cells@,
            wires: self.wires@,
            inputs: self.inputs@,
            outputs: self.outputs@,
            modules: self.modules@,
        }
    }
}

impl CircuitBuilder {
    /// An empty builder.
    pub fn new() -> (b: CircuitBuilder)
        ensures
            b@.cells.len() == 0,
            b@.wires.len() == 0,
            b@.inputs.len() == 0,
            b@.outputs.len() == 0,
            b@.modules.len() == 0,
    {
        CircuitBuilder {
            cells: PosSet::new(),
            wires: Vec::new(),
            inputs: Vec::new(),
            outputs: Vec::new(),
            modules: Vec::new(),
        }
    }

    /// Adds a wire; its endpoints become cells.
    pub fn add_wire(&mut self, src: Pos, dst: Pos, kind: WireKind) -> (r: &mut Self)
        ensures
            r@.cells.to_set() == old(self)@.cells.to_set().insert(src).insert(dst),
            sorted_strict(r@.cells),
            r@.wires == old(self)@.wires.push(Wire { src, dst, kind }),
            r@.inputs == old(self)@.inputs,
            r@.outputs == old(self)@.outputs,
            r@.modules == old(self)@.modules,
            *final(self) == *final(r),
    {
        self.cells.insert(src);
        self.cells.insert(dst);
        self.wires.push(Wire::new(src, dst, kind));
        self
    }

    /// Adds an input component.
    pub fn add_input(&mut self, input: Input) -> (r: &mut Self)
        ensures
            r@.cells == old(self)@.cells,
            r@.wires == old(self)@.wires,
            r@.inputs == old(self)@.inputs.push(input),
            r@.outputs == old(self)@.outputs,
            r@.modules == old(self)@.modules,
            *final(self) == *final(r),
    {
        self.inputs.push(input);
        self
    }

    /// Adds an output component.
    pub fn add_output(&mut self, output: Output) -> (r: &mut Self)
        ensures
            r@.cells == old(self)@.cells,
            r@.wires == old(self)@.wires,
            r@.inputs == old(self)@.inputs,
            r@.outputs == old(self)@.outputs.push(output),
            r@.modules == old(self)@.modules,
            *final(self) == *final(r),
    {
        self.outputs.push(output);
        self
    }

    /// Adds a module instance.
    pub fn add_module(&mut self, module: ResolvedModule) -> (r: &mut Self)
        ensures
            r@.cells == old(self)@.cells,
            r@.wires == old(self)@.wires,
            r@.inputs == old(self)@.inputs,
            r@.outputs == old(self)@.outputs,
            r@.modules == old(self)@.modules.push(module),
            *final(self) == *final(r),
    {
        self.modules.push(module);
        self
    }

    /// Builds the circuit from everything added, as `Circuit::with_modules` does.
    pub fn build(self) -> (r: Result<Circuit, CircuitError>)
        ensures
            built_with_modules(
                self@.cells,
                self@.wires,
                self@.inputs,
                self@.outputs,
                self@.modules,
                r,
            ),
    {
        Circuit::with_modules(self.cells, self.wires, self.inputs, self.outputs, self.modules)
    }
}

impl Default for CircuitBuilder {
    fn default() -> (b: Self)
        ensures
            b@.cells.len() == 0,
            b@.wires.len() == 0,
            b@.inputs.len() == 0,
            b@.outputs.len() == 0,
            b@.modules.len() == 0,
    {
        Self::new()
    }
}

} // verus!
