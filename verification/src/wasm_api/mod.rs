pub mod simulator;
pub mod types;

pub use simulator::WasmSimulator;
pub use types::{WasmCellState, WasmCircuitInput, WasmStepRunResult, WasmTickResult};
