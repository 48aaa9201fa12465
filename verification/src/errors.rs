//! The errors that end kernel bring-up.

use vstd::prelude::*;
use vstd::std_specs::convert::FromSpecImpl;
use crate::boot::BootValidationError;
use crate::memory::error::{FrameAllocError, MemoryInitError};

verus! {

/// Whatever ended bring-up. The report is made where the error is caught;
/// the error itself carries numbers only.
#[derive(Debug, Clone, Copy)]
pub enum KernelError {
    BootValidation(BootValidationError),
    MemoryInit(MemoryInitError),
    FrameAlloc(FrameAllocError),
}

impl From<BootValidationError> for KernelError {
    fn from(err: BootValidationError) -> (r: Self) {
        KernelError::BootValidation(err)
    }
}

impl FromSpecImpl<BootValidationError> for KernelError {
    open spec fn obeys_from_spec() -> bool {
        true
    }

    open spec fn from_spec(err: BootValidationError) -> Self {
        KernelError::BootValidation(err)
    }
}

impl From<MemoryInitError> for KernelError {
    fn from(err: MemoryInitError) -> (r: Self) {
        KernelError::MemoryInit(err)
    }
}

impl FromSpecImpl<MemoryInitError> for KernelError {
    open spec fn obeys_from_spec() -> bool {
        true
    }

    open spec fn from_spec(err: MemoryInitError) -> Self {
        KernelError::MemoryInit(err)
    }
}

impl From<FrameAllocError> for KernelError {
    fn from(err: FrameAllocError) -> (r: Self) {
        KernelError::FrameAlloc(err)
    }
}

impl FromSpecImpl<FrameAllocError> for KernelError {
    open spec fn obeys_from_spec() -> bool {
        true
    }

    open spec fn from_spec(err: FrameAllocError) -> Self {
        KernelError::FrameAlloc(err)
    }
}

} // verus!
