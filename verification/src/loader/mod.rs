//! The loader's side of the hand-off: what it learns from the firmware, put
//! into the form in which the kernel takes it.

pub mod abi;
pub mod firmware;
pub mod flags;
pub mod framebuffer;
pub mod options;
pub mod time;
pub mod writer;
