//! Filling in the hand-off record.

use vstd::prelude::*;
use crate::abi::{BootAbi, MemoryMap, ABI_VERSION};
use crate::loader::firmware::{firmware_into_abi, FirmwareInfo};
use crate::loader::framebuffer::{framebuffer_into_abi, FramebufferInfo};
use crate::loader::options::{options_into_abi, BootOptions};

verus! {

/// Pages that hold `bytes` bytes.
pub fn pages_for(bytes: usize) -> (r: usize)
    ensures
        r == (bytes + 4095) / 4096,
{
    let whole: usize = bytes / 4096;
    if bytes % 4096 != 0 {
        whole + 1
    } else {
        whole
    }
}

/// The memory-map record for the map that the firmware handed over when
/// its services ended: where the descriptors lie, how many bytes they
/// take, and how they are laid out. Sizes that do not fit the 32-bit
/// fields of the record are cut to their low 32 bits.
pub fn convert_memory_map(
    buffer_address: u64,
    buffer_len: usize,
    desc_size: usize,
    desc_version: u32,
    entry_count: usize,
) -> (r: MemoryMap)
    ensures
        r.descriptors_phys == buffer_address,
        r.map_size == buffer_len,
        r.entry_size == (desc_size as u64) % 0x1_0000_0000,
        r.entry_version == desc_version,
        r.entry_count == (entry_count as u64) % 0x1_0000_0000,
{
    MemoryMap {
        descriptors_phys: buffer_address,
        map_size: buffer_len as u64,
        entry_size: ((desc_size as u64) % 0x1_0000_0000) as u32,
        entry_version: desc_version,
        entry_count: ((entry_count as u64) % 0x1_0000_0000) as u32,
    }
}

/// Puts together the hand-off record: the version that this build
/// understands, and what the loader learnt from the firmware. A frequency
/// that could not be measured is handed over as zero.
pub fn build_boot_abi(
    fw: &FirmwareInfo,
    fb: &FramebufferInfo,
    options: BootOptions,
    tsc_frequency_hz: Option<u64>,
    memory_map: MemoryMap,
) -> (r: BootAbi)
    requires
        fw.wf(),
    ensures
        r.version == ABI_VERSION,
        r.memory_map == memory_map,
        r.tsc_frequency_hz == match tsc_frequency_hz {
            Some(hz) => hz,
            None => 0,
        },
        r.options == crate::loader::options::options_record(options),
        r.firmware.revision == fw.revision_number(),
        r.firmware.vendor@.take(r.firmware.vendor_len as int) == fw.vendor_bytes(),
        r.firmware.vendor_len == fw.vendor_bytes().len(),
        forall|i: int| r.firmware.vendor_len <= i < 32 ==> #[trigger] r.firmware.vendor[i] == 0,
        r.firmware.vendor_truncated == if fw.truncated() {
            1u8
        } else {
            0u8
        },
        r.framebuffer == crate::loader::framebuffer::framebuffer_record(*fb),
{
    BootAbi {
        version: ABI_VERSION,
        options: options_into_abi(options),
        firmware: firmware_into_abi(fw),
        framebuffer: framebuffer_into_abi(fb),
        tsc_frequency_hz: match tsc_frequency_hz {
            Some(hz) => hz,
            None => 0,
        },
        memory_map,
    }
}

} // verus!
