//! The framebuffer console keeps the same cells, colors and header as the device console,
//! and scrolls and erases them the same way: its types are those of `framebuffer_device`.
pub use super::framebuffer_device::{ColorCode, LogLevel, Rgb8, ScreenChar, Writer, backspace, print_header};
