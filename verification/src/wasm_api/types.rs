use vstd::prelude::*;

verus! {

/// A whole circuit given by the web page.
#[derive(Debug)]
pub struct WasmCircuitInput {
    pub wires: Vec<WasmWireInput>,
    pub generators: Vec<WasmGeneratorInput>,
    pub modules: Vec<WasmModuleInput>,
    /// The sub-circuit definitions, by name.
    pub sub_circuits: Vec<(String, WasmSubCircuitInput)>,
}

/// A module instance.
#[derive(Debug)]
pub struct WasmModuleInput {
    pub module_type: String,
    pub sub_circuit: Option<String>,
    pub input: Vec<[i32; 2]>,
    pub output: Vec<[i32; 2]>,
}

/// A sub-circuit definition.
#[derive(Debug)]
pub struct WasmSubCircuitInput {
    pub wires: Vec<WasmWireInput>,
    pub sub_input: Vec<[i32; 2]>,
    pub sub_output: Vec<[i32; 2]>,
    pub modules: Vec<WasmModuleInput>,
}

/// A wire.
#[derive(Debug)]
pub struct WasmWireInput {
    pub src: [i32; 2],
    pub dst: [i32; 2],
    pub kind: WasmWireKind,
}

/// The polarity of a wire.
#[derive(Debug, Clone, Copy, PartialEq, Eq, Structural)]
pub enum WasmWireKind {
    Positive,
    Negative,
}

/// A generator.
#[derive(Debug)]
pub struct WasmGeneratorInput {
    pub target: [i32; 2],
    pub pattern: String,
    pub is_loop: bool,
}

/// The state of one cell.
#[derive(Debug, Clone, Copy, PartialEq, Eq, Structural)]
pub struct WasmCellState {
    pub x: i32,
    pub y: i32,
    pub value: bool,
}

/// The state after a run.
#[derive(Debug)]
pub struct WasmTickResult {
    pub tick: u64,
    pub cells: Vec<WasmCellState>,
}

/// What a run of a bounded number of steps did.
#[derive(Debug, Clone, Copy, PartialEq, Eq, Structural)]
pub struct WasmStepRunResult {
    pub steps_executed: u32,
    pub ticks_completed: u32,
    pub completed: bool,
}

} // verus!
