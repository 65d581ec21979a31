//! Screenshot and region capture: everything between the compositor's buffer and
//! the encoded image.

pub mod dims;
pub mod encode;
pub mod error;
pub mod frame;
pub mod pixels;
pub mod resize;
pub mod shot;
