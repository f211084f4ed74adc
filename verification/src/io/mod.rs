pub use crate::parser::json;
