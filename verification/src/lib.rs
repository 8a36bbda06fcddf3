pub mod bmp;
pub mod color;
pub mod framebuffer;
pub mod line;
