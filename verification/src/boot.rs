//! Checks on the hand-off record, made before the kernel reads anything
//! through it.

use vstd::prelude::*;
use crate::abi::{
    BootAbi, Framebuffer, MemoryMap, ABI_VERSION, MEMORY_DESCRIPTOR_ALIGN, MEMORY_DESCRIPTOR_SIZE,
};

verus! {

/// Why a hand-off record was refused.
#[derive(Clone, Copy, Debug)]
pub enum BootValidationError {
    VersionMismatch { expected: u32, found: u32 },
    FramebufferInvalid(&'static str),
    MemoryMapInvalid(&'static str),
}

/// Bytes that a framebuffer of this geometry occupies: four per pixel, one
/// full scanline per row.
pub open spec fn framebuffer_required_bytes(fb: Framebuffer) -> int {
    4 * (fb.pixels_per_scanline as int) * (fb.height as int)
}

/// The geometry that the kernel accepts.
pub open spec fn framebuffer_valid(fb: Framebuffer) -> bool {
    &&& fb.base_address != 0
    &&& fb.buffer_size != 0
    &&& fb.width != 0
    &&& fb.height != 0
    &&& fb.pixels_per_scanline >= fb.width
    &&& fb.buffer_size >= framebuffer_required_bytes(fb)
}

/// The first complaint about a framebuffer, in the order in which it is examined.
pub open spec fn framebuffer_fault(fb: Framebuffer) -> Option<&'static str> {
    if fb.base_address == 0 {
        Some("framebuffer base address is null")
    } else if fb.buffer_size == 0 {
        Some("framebuffer buffer size is zero")
    } else if fb.width == 0 || fb.height == 0 {
        Some("framebuffer dimensions are zero")
    } else if fb.pixels_per_scanline == 0 {
        Some("pixels per scanline is zero")
    } else if fb.pixels_per_scanline < fb.width {
        Some("pixels per scanline smaller than width")
    } else if fb.buffer_size < framebuffer_required_bytes(fb) {
        Some("framebuffer buffer smaller than required size")
    } else {
        None
    }
}

/// The memory-map layout that the kernel accepts.
pub open spec fn memory_map_valid(map: MemoryMap) -> bool {
    &&& map.descriptors_phys != 0
    &&& map.descriptors_phys % MEMORY_DESCRIPTOR_ALIGN == 0
    &&& map.entry_size >= MEMORY_DESCRIPTOR_SIZE
    &&& map.map_size != 0
    &&& map.entry_count != 0
    &&& map.map_size % (map.entry_size as u64) == 0
    &&& (map.entry_count as int) * (map.entry_size as int) <= map.map_size
}

/// The first complaint about a memory map, in the order in which it is examined.
pub open spec fn memory_map_fault(map: MemoryMap) -> Option<&'static str> {
    if map.descriptors_phys == 0 {
        Some("descriptor buffer address is null")
    } else if map.descriptors_phys % MEMORY_DESCRIPTOR_ALIGN != 0 {
        Some("descriptor buffer address not aligned")
    } else if map.entry_size == 0 {
        Some("entry size is zero")
    } else if map.map_size == 0 {
        Some("map size is zero")
    } else if map.entry_size < MEMORY_DESCRIPTOR_SIZE {
        Some("entry size smaller than memory descriptor")
    } else if map.entry_count == 0 {
        Some("no memory descriptors")
    } else if map.map_size % (map.entry_size as u64) != 0 {
        Some("map size not divisible by entry size")
    } else if (map.entry_count as int) > (map.map_size as int) / (map.entry_size as int) {
        Some("entry count exceeds buffer capacity")
    } else {
        None
    }
}

/// The verdict on a whole record: version first, then framebuffer, then
/// memory map.
pub open spec fn boot_abi_verdict(abi: BootAbi) -> Result<(), BootValidationError> {
    if abi.version != ABI_VERSION {
        Err(BootValidationError::VersionMismatch { expected: ABI_VERSION, found: abi.version })
    } else if let Some(reason) = framebuffer_fault(abi.framebuffer) {
        Err(BootValidationError::FramebufferInvalid(reason))
    } else if let Some(reason) = memory_map_fault(abi.memory_map) {
        Err(BootValidationError::MemoryMapInvalid(reason))
    } else {
        Ok(())
    }
}

/// A framebuffer has no fault exactly when its geometry is valid.
pub proof fn lemma_framebuffer_fault_none(fb: Framebuffer)
    ensures
        framebuffer_fault(fb) is None <==> framebuffer_valid(fb),
{
}

/// A memory map has no fault exactly when its layout is valid.
pub proof fn lemma_memory_map_fault_none(map: MemoryMap)
    ensures
        memory_map_fault(map) is None <==> memory_map_valid(map),
{
    if map.entry_size > 0 {
        let q = (map.map_size as int) / (map.entry_size as int);
        let e = map.entry_size as int;
        let c = map.entry_count as int;
        assert(q * e <= map.map_size < q * e + e) by (nonlinear_arith)
            requires
                q == (map.map_size as int) / e,
                e > 0,
                map.map_size >= 0,
        ;
        assert((c <= q) <==> (c * e <= map.map_size)) by (nonlinear_arith)
            requires
                q * e <= map.map_size < q * e + e,
                e > 0,
        ;
    }
}

/// Checks the framebuffer record.
pub fn validate_framebuffer(fb: &Framebuffer) -> (r: Result<(), BootValidationError>)
    ensures
        r is Ok <==> framebuffer_valid(*fb),
        match framebuffer_fault(*fb) {
            Some(reason) => r == Err::<(), _>(BootValidationError::FramebufferInvalid(reason)),
            None => r is Ok,
        },
{
    proof {
        lemma_framebuffer_fault_none(*fb);
    }
    if fb.base_address == 0 {
        return Err(BootValidationError::FramebufferInvalid("framebuffer base address is null"));
    }
    if fb.buffer_size == 0 {
        return Err(BootValidationError::FramebufferInvalid("framebuffer buffer size is zero"));
    }
    if fb.width == 0 || fb.height == 0 {
        return Err(BootValidationError::FramebufferInvalid("framebuffer dimensions are zero"));
    }
    if fb.pixels_per_scanline == 0 {
        return Err(BootValidationError::FramebufferInvalid("pixels per scanline is zero"));
    }
    if fb.pixels_per_scanline < fb.width {
        return Err(
            BootValidationError::FramebufferInvalid("pixels per scanline smaller than width"),
        );
    }
    let stride: u128 = fb.pixels_per_scanline as u128;
    let height: u128 = fb.height as u128;
    assert(4 * stride * height <= 4 * 0xffff_ffff * 0xffff_ffff) by (nonlinear_arith)
        requires
            stride <= 0xffff_ffff,
            height <= 0xffff_ffff,
    ;
    assert(4 * stride <= 4 * 0xffff_ffff);
    let required_bytes: u128 = 4u128 * stride * height;
    if (fb.buffer_size as u128) < required_bytes {
        return Err(
            BootValidationError::FramebufferInvalid(
                "framebuffer buffer smaller than required size",
            ),
        );
    }
    Ok(())
}

/// Checks the memory-map record.
pub fn validate_memory_map(map: &MemoryMap) -> (r: Result<(), BootValidationError>)
    ensures
        r is Ok <==> memory_map_valid(*map),
        match memory_map_fault(*map) {
            Some(reason) => r == Err::<(), _>(BootValidationError::MemoryMapInvalid(reason)),
            None => r is Ok,
        },
{
    proof {
        lemma_memory_map_fault_none(*map);
    }
    if map.descriptors_phys == 0 {
        return Err(BootValidationError::MemoryMapInvalid("descriptor buffer address is null"));
    }
    if map.descriptors_phys % MEMORY_DESCRIPTOR_ALIGN != 0 {
        return Err(
            BootValidationError::MemoryMapInvalid("descriptor buffer address not aligned"),
        );
    }
    if map.entry_size == 0 {
        return Err(BootValidationError::MemoryMapInvalid("entry size is zero"));
    }
    if map.map_size == 0 {
        return Err(BootValidationError::MemoryMapInvalid("map size is zero"));
    }
    if map.entry_size < MEMORY_DESCRIPTOR_SIZE {
        return Err(
            BootValidationError::MemoryMapInvalid("entry size smaller than memory descriptor"),
        );
    }
    if map.entry_count == 0 {
        return Err(BootValidationError::MemoryMapInvalid("no memory descriptors"));
    }
    let entry_size: u64 = map.entry_size as u64;
    if map.map_size % entry_size != 0 {
        return Err(BootValidationError::MemoryMapInvalid("map size not divisible by entry size"));
    }
    let max_entries: u64 = map.map_size / entry_size;
    if map.entry_count as u64 > max_entries {
        return Err(BootValidationError::MemoryMapInvalid("entry count exceeds buffer capacity"));
    }
    Ok(())
}

/// Checks the whole hand-off record: nothing is changed, and the first
/// failing check decides the error.
pub fn validate_boot_abi(abi: &BootAbi) -> (r: Result<(), BootValidationError>)
    ensures
        r == boot_abi_verdict(*abi),
        abi.version != ABI_VERSION ==> r == Err::<(), _>(
            BootValidationError::VersionMismatch { expected: ABI_VERSION, found: abi.version },
        ),
        r is Ok <==> abi.version == ABI_VERSION && framebuffer_valid(abi.framebuffer)
            && memory_map_valid(abi.memory_map),
{
    if abi.version != ABI_VERSION {
        return Err(
            BootValidationError::VersionMismatch { expected: ABI_VERSION, found: abi.version },
        );
    }
    match validate_framebuffer(&abi.framebuffer) {
        Err(e) => {
            return Err(e);
        },
        Ok(_) => {},
    }
    match validate_memory_map(&abi.memory_map) {
        Err(e) => {
            return Err(e);
        },
        Ok(_) => {},
    }
    Ok(())
}

} // verus!
