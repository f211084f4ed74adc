pub mod engine;
pub mod engine_simple;
pub mod state;
pub mod wire_state;

pub use crate::base::Rect;
pub use engine::{CellMap, OutputFormat, Simulator, StepResult, TesterResult, TickOutput};
pub use engine_simple::SimulatorSimple;
pub use state::SimState;
pub use wire_state::WireSimState;
