//! A small software rasterizer: a pixel buffer, integer line drawing,
//! scan-line polygon fill and an uncompressed bitmap encoder.
//!
//! Every drawing operation is specified as painting a mathematical set of
//! grid cells onto the buffer's model, [`framebuffer::FramebufferView`].

pub mod bmp;
pub mod color;
pub mod framebuffer;
pub mod line_impl;
pub mod polygon;
pub mod rgba;
