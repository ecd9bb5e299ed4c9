//! Pixel drawing for a hardware display surface whose layout is discovered,
//! not assumed: RGBA colors packed into the device's native bit-packed
//! pixels, stride-aware drawing primitives over the mapped byte region, and
//! a device-independent offscreen buffer with Bresenham lines and integer
//! scaling.

pub mod buffer;
pub mod errors;
pub mod framebuffer;
pub mod gui;

pub use buffer::{BitOrder, Buffer, Vec2};
pub use errors::FbError;
pub use framebuffer::{flush_status, FbBitfield, FbFixScreenInfo, FbVarScreenInfo, Framebuffer};
pub use gui::{Color, FbGUI};
