pub mod control;
pub mod renderer;

pub use control::{initial_viewport, may_iterate, view_outcome, ViewControl};
pub use renderer::ViewRenderer;
