pub mod json;
pub mod model;
pub mod order;
