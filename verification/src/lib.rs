pub mod base;
pub mod circuit;
pub mod io;
pub mod parser;
pub mod platform;
pub mod simulation;
pub mod view;
pub mod wasm_api;
