//! Error kinds of the memory subsystem. They carry numbers, never text.

use vstd::prelude::*;

verus! {

/// Failures of the page-table builder.
#[derive(Clone, Copy, Debug, PartialEq, Eq, Structural)]
pub enum PagingError {
    /// The frame source had no frame left for a table.
    OutOfFrames,
    /// `start + size` does not fit in 64 bits.
    AddressOverflow(u64, u64),
    /// The address lies beyond the first 512 GiB.
    UnsupportedAddress(u64),
}

/// Failures of the runtime allocator.
#[derive(Clone, Copy, Debug, PartialEq, Eq, Structural)]
pub enum PhysAllocError {
    OutOfMemory,
    UnsupportedFrameCount { frames: u64 },
    RangeOverflow { start: u64, end: u64 },
    RangeMisaligned { start: u64, end: u64 },
    StorageExhausted { capacity: usize },
    InvalidRegion { start: u64, end: u64 },
}

/// Failures while the runtime allocator is built.
#[derive(Clone, Copy, Debug, PartialEq, Eq, Structural)]
pub enum PhysAllocInitError {
    /// The map holds no conventional memory.
    Empty,
    InvalidDescriptor { index: usize, error: PhysAllocError },
    ReservationConflict { start: u64, end: u64, error: PhysAllocError },
}

/// Failures of the frame cursor.
#[derive(Clone, Copy, Debug, PartialEq, Eq, Structural)]
pub enum FrameAllocError {
    OutOfFrames,
    NonContiguous { expected: u64, found: u64 },
    InvalidRequest,
}

/// Failures of memory bring-up as a whole.
#[derive(Clone, Copy, Debug, PartialEq, Eq, Structural)]
pub enum MemoryInitError {
    NoUsableMemory,
    EmptyMemoryMap,
    OutOfFrames,
    NonContiguous { expected: u64, found: u64 },
    TooLarge,
    StackDescriptorMissing(u64),
    StackRangeOverflow(u32),
    IdentityRangeOverflow { start: u64, end: u64 },
    Paging(PagingError),
    Allocator(PhysAllocInitError),
}

/// How a failure of the frame cursor is reported by memory bring-up.
pub open spec fn frame_error_as_init(err: FrameAllocError) -> MemoryInitError {
    match err {
        FrameAllocError::OutOfFrames => MemoryInitError::OutOfFrames,
        FrameAllocError::NonContiguous { expected, found } => MemoryInitError::NonContiguous {
            expected,
            found,
        },
        FrameAllocError::InvalidRequest => MemoryInitError::EmptyMemoryMap,
    }
}

/// Turns a failure of the frame cursor into the bring-up error that reports it.
pub fn init_error_from_frame_error(err: FrameAllocError) -> (r: MemoryInitError)
    ensures
        r == frame_error_as_init(err),
{
    match err {
        FrameAllocError::OutOfFrames => MemoryInitError::OutOfFrames,
        FrameAllocError::NonContiguous { expected, found } => MemoryInitError::NonContiguous {
            expected,
            found,
        },
        FrameAllocError::InvalidRequest => MemoryInitError::EmptyMemoryMap,
    }
}

} // verus!
