pub mod builder;
pub mod circuit;
pub mod component;
pub mod generator;
pub mod module;
pub mod shared;
pub mod tester;
pub mod wire;

pub use crate::base::Pos;
pub use builder::CircuitBuilder;
pub use circuit::Circuit;
pub use component::{Input, InputComponent, Output, OutputComponent};
pub use generator::Generator;
pub use module::ResolvedModule;
pub use tester::Tester;
pub use wire::{Wire, WireKind};
