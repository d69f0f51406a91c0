//! The colors and characters of the early framebuffer console are those of the device
//! console.
pub use crate::graphics::framebuffer_device::{ColorCode, Rgb8, ScreenChar};
