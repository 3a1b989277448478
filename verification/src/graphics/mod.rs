pub mod framebuffer;
pub mod primitives;
