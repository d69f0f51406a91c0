pub mod framebuffer;
pub mod framebuffer_device;
pub mod writer;
