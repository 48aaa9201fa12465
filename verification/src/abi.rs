//! The binary hand-off record shared by the loader and the kernel.

use vstd::prelude::*;

verus! {

/// Version of the hand-off record that this build understands.
pub const ABI_VERSION: u32 = 1;

/// Number of bytes kept of the firmware vendor string.
pub const VENDOR_CAPACITY: usize = 32;

/// Bytes taken by the fields of one memory descriptor.
pub const MEMORY_DESCRIPTOR_SIZE: u32 = 40;

/// Alignment that the descriptor buffer must have.
pub const MEMORY_DESCRIPTOR_ALIGN: u64 = 8;

/// Everything the kernel needs from the firmware, captured by the loader.
#[derive(Clone, Copy, Debug)]
pub struct BootAbi {
    pub version: u32,
    pub options: Options,
    pub firmware: Firmware,
    pub framebuffer: Framebuffer,
    /// Calibrated timestamp-counter frequency in Hz; 0 when uncalibrated.
    pub tsc_frequency_hz: u64,
    pub memory_map: MemoryMap,
}

/// Boot options handed from the loader to the kernel; nonzero means enabled.
#[derive(Clone, Copy, Debug, PartialEq, Eq, Structural)]
pub struct Options {
    pub debug: u8,
    pub quiet: u8,
}

impl Default for Options {
    fn default() -> (r: Self)
        ensures
            r.debug == 0,
            r.quiet == 0,
    {
        Options { debug: 0, quiet: 0 }
    }
}

/// Firmware memory types, in the order of their firmware numbers (0 to 15).
#[derive(Clone, Copy, Debug, PartialEq, Eq, Structural)]
pub enum EfiMemoryType {
    ReservedMemoryType,
    LoaderCode,
    LoaderData,
    BootServicesCode,
    BootServicesData,
    RuntimeServicesCode,
    RuntimeServicesData,
    ConventionalMemory,
    UnusableMemory,
    ACPIReclaimMemory,
    ACPIMemoryNVS,
    MemoryMappedIO,
    MemoryMappedIOPortSpace,
    PalCode,
    PersistentMemory,
    MaxMemoryType,
}

/// Firmware number of conventional memory, the one type free for the system.
pub const CONVENTIONAL_MEMORY: u32 = 7;

impl EfiMemoryType {
    /// The firmware number of a memory type.
    pub open spec fn spec_raw(self) -> u32 {
        match self {
            EfiMemoryType::ReservedMemoryType => 0,
            EfiMemoryType::LoaderCode => 1,
            EfiMemoryType::LoaderData => 2,
            EfiMemoryType::BootServicesCode => 3,
            EfiMemoryType::BootServicesData => 4,
            EfiMemoryType::RuntimeServicesCode => 5,
            EfiMemoryType::RuntimeServicesData => 6,
            EfiMemoryType::ConventionalMemory => 7,
            EfiMemoryType::UnusableMemory => 8,
            EfiMemoryType::ACPIReclaimMemory => 9,
            EfiMemoryType::ACPIMemoryNVS => 10,
            EfiMemoryType::MemoryMappedIO => 11,
            EfiMemoryType::MemoryMappedIOPortSpace => 12,
            EfiMemoryType::PalCode => 13,
            EfiMemoryType::PersistentMemory => 14,
            EfiMemoryType::MaxMemoryType => 15,
        }
    }

    #[verifier::when_used_as_spec(spec_raw)]
    pub fn raw(self) -> (r: u32)
        ensures
            r == self.spec_raw(),
            r <= 15,
    {
        match self {
            EfiMemoryType::ReservedMemoryType => 0,
            EfiMemoryType::LoaderCode => 1,
            EfiMemoryType::LoaderData => 2,
            EfiMemoryType::BootServicesCode => 3,
            EfiMemoryType::BootServicesData => 4,
            EfiMemoryType::RuntimeServicesCode => 5,
            EfiMemoryType::RuntimeServicesData => 6,
            EfiMemoryType::ConventionalMemory => 7,
            EfiMemoryType::UnusableMemory => 8,
            EfiMemoryType::ACPIReclaimMemory => 9,
            EfiMemoryType::ACPIMemoryNVS => 10,
            EfiMemoryType::MemoryMappedIO => 11,
            EfiMemoryType::MemoryMappedIOPortSpace => 12,
            EfiMemoryType::PalCode => 13,
            EfiMemoryType::PersistentMemory => 14,
            EfiMemoryType::MaxMemoryType => 15,
        }
    }
}

/// Firmware revision and vendor.
#[derive(Clone, Copy, Debug)]
pub struct Firmware {
    pub revision: u32,
    /// Vendor string as UTF-8, zero padded.
    pub vendor: [u8; 32],
    /// Number of bytes of `vendor` in use.
    pub vendor_len: u8,
    /// Nonzero when the vendor string did not fit.
    pub vendor_truncated: u8,
}

/// The linear framebuffer found by the loader.
#[derive(Clone, Copy, Debug, PartialEq, Eq, Structural)]
pub struct Framebuffer {
    pub base_address: u64,
    pub buffer_size: u64,
    pub width: u32,
    pub height: u32,
    pub pixels_per_scanline: u32,
    pub pixel_format: PixelFormat,
}

/// One firmware memory descriptor.
#[derive(Clone, Copy, Debug, PartialEq, Eq, Structural)]
pub struct MemoryDescriptor {
    /// Raw firmware memory type.
    pub typ: u32,
    pub _pad: u32,
    pub physical_start: u64,
    /// Present in the firmware layout; never consulted.
    pub virtual_start: u64,
    pub number_of_pages: u64,
    pub attribute: u64,
}

/// Where the firmware memory map lies and how it is laid out.
#[derive(Clone, Copy, Debug, PartialEq, Eq, Structural)]
pub struct MemoryMap {
    pub descriptors_phys: u64,
    pub map_size: u64,
    /// Stride from one descriptor to the next.
    pub entry_size: u32,
    pub entry_version: u32,
    pub entry_count: u32,
}

/// Byte order of one pixel; the fourth byte is padding in both.
#[derive(Clone, Copy, Debug, PartialEq, Eq, Structural)]
pub enum PixelFormat {
    Rgb,
    Bgr,
}

} // verus!
