//! Bring-up logic for a bare-metal x86_64 system, on plain values: the
//! loader-to-kernel hand-off record and its validation; the firmware
//! memory-map view, the early frame cursor, the runtime physical frame
//! allocator and the identity-mapped page-table builder; the framebuffer
//! console, the interrupt descriptor table and the monotonic clock of the
//! kernel; and what the loader computes before the hand-off. Touching the
//! hardware and the firmware is left to the caller.

pub mod abi;
pub mod boot;
pub mod console;
pub mod errors;
pub mod framebuffer;
pub mod interrupts;
pub mod loader;
pub mod memory;
pub mod options;
pub mod time;
