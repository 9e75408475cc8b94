//! Rendering building blocks: geometry, click targets, colours, the spinner
//! and the composed views.

pub mod layout;
pub mod number_format;
pub mod mouse_target;
pub mod cheese_spinner;
pub mod palette;
pub mod renderer;
