pub mod pos;
pub mod pos_set;
pub mod rect;
pub mod text;

pub use pos::Pos;
pub use pos_set::PosSet;
pub use rect::Rect;
pub mod error;

pub use error::{CircuitError, FormatError, ParseError, SimulationError};
