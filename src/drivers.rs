pub mod framebuffer;
