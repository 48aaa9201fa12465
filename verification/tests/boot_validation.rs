use oxide_boot::abi::{
    BootAbi, Firmware, Framebuffer, MemoryMap, Options, PixelFormat, ABI_VERSION,
    MEMORY_DESCRIPTOR_SIZE,
};
use oxide_boot::boot::{
    validate_boot_abi, validate_framebuffer, validate_memory_map, BootValidationError,
};

fn valid_framebuffer() -> Framebuffer {
    Framebuffer {
        base_address: 0x1000,
        buffer_size: 2_000_000,
        width: 800,
        height: 600,
        pixels_per_scanline: 800,
        pixel_format: PixelFormat::Rgb,
    }
}

fn valid_memory_map() -> MemoryMap {
    let entry_size = MEMORY_DESCRIPTOR_SIZE;
    MemoryMap {
        descriptors_phys: 0x2000,
        map_size: entry_size as u64 * 4,
        entry_size,
        entry_version: 1,
        entry_count: 4,
    }
}

fn empty_firmware() -> Firmware {
    Firmware { revision: 0, vendor: [0; 32], vendor_len: 0, vendor_truncated: 0 }
}

fn valid_boot_abi() -> BootAbi {
    BootAbi {
        version: ABI_VERSION,
        options: Options::default(),
        firmware: empty_firmware(),
        framebuffer: valid_framebuffer(),
        tsc_frequency_hz: 0,
        memory_map: valid_memory_map(),
    }
}

#[test]
fn validate_boot_abi_accepts_valid_data() {
    let abi = valid_boot_abi();
    assert!(validate_boot_abi(&abi).is_ok());
}

#[test]
fn validate_boot_abi_rejects_version_mismatch() {
    let mut abi = valid_boot_abi();
    abi.version = ABI_VERSION + 1;
    assert!(matches!(
        validate_boot_abi(&abi),
        Err(BootValidationError::VersionMismatch { expected, found })
            if expected == ABI_VERSION && found == ABI_VERSION + 1
    ));
}

#[test]
fn validate_framebuffer_rejects_null_base() {
    let mut fb = valid_framebuffer();
    fb.base_address = 0;
    assert!(matches!(
        validate_framebuffer(&fb),
        Err(BootValidationError::FramebufferInvalid(reason))
            if reason.contains("base address")
    ));
}

#[test]
fn validate_framebuffer_rejects_small_buffer() {
    let mut fb = valid_framebuffer();
    fb.buffer_size = 1;
    assert!(matches!(
        validate_framebuffer(&fb),
        Err(BootValidationError::FramebufferInvalid(reason))
            if reason.contains("smaller")
    ));
}

#[test]
fn validate_framebuffer_requires_nonzero_buffer_size() {
    let mut fb = valid_framebuffer();
    fb.buffer_size = 0;
    assert!(matches!(
        validate_framebuffer(&fb),
        Err(BootValidationError::FramebufferInvalid(reason))
            if reason.contains("buffer size is zero")
    ));
}

#[test]
fn validate_framebuffer_rejects_zero_dimensions() {
    let mut fb = valid_framebuffer();
    fb.width = 0;
    assert!(matches!(
        validate_framebuffer(&fb),
        Err(BootValidationError::FramebufferInvalid(reason))
            if reason.contains("dimensions")
    ));
}

#[test]
fn validate_framebuffer_requires_pixels_per_scanline() {
    let mut fb = valid_framebuffer();
    fb.pixels_per_scanline = 0;
    assert!(matches!(
        validate_framebuffer(&fb),
        Err(BootValidationError::FramebufferInvalid(reason))
            if reason.contains("scanline is zero")
    ));
}

#[test]
fn validate_framebuffer_rejects_stride_smaller_than_width() {
    let mut fb = valid_framebuffer();
    fb.pixels_per_scanline = fb.width - 1;
    assert!(matches!(
        validate_framebuffer(&fb),
        Err(BootValidationError::FramebufferInvalid(reason))
            if reason.contains("smaller than width")
    ));
}

#[test]
fn validate_framebuffer_allows_bgr_pixel_format() {
    let mut fb = valid_framebuffer();
    fb.pixel_format = PixelFormat::Bgr;
    assert!(validate_framebuffer(&fb).is_ok());
}

#[test]
fn validate_memory_map_rejects_unaligned_buffer() {
    let mut map = valid_memory_map();
    map.descriptors_phys = 0x1234;
    assert!(matches!(
        validate_memory_map(&map),
        Err(BootValidationError::MemoryMapInvalid(reason))
            if reason.contains("aligned")
    ));
}

#[test]
fn validate_memory_map_rejects_excess_entries() {
    let mut map = valid_memory_map();
    map.entry_count = 10;
    assert!(matches!(
        validate_memory_map(&map),
        Err(BootValidationError::MemoryMapInvalid(reason))
            if reason.contains("count exceeds")
    ));
}

#[test]
fn validate_memory_map_requires_nonzero_entry_size() {
    let mut map = valid_memory_map();
    map.entry_size = 0;
    assert!(matches!(
        validate_memory_map(&map),
        Err(BootValidationError::MemoryMapInvalid(reason))
            if reason.contains("entry size is zero")
    ));
}

#[test]
fn validate_memory_map_requires_nonzero_map_size() {
    let mut map = valid_memory_map();
    map.map_size = 0;
    assert!(matches!(
        validate_memory_map(&map),
        Err(BootValidationError::MemoryMapInvalid(reason))
            if reason.contains("map size is zero")
    ));
}

#[test]
fn validate_memory_map_rejects_descriptor_smaller_than_expected() {
    let mut map = valid_memory_map();
    map.entry_size = MEMORY_DESCRIPTOR_SIZE - 1;
    assert!(matches!(
        validate_memory_map(&map),
        Err(BootValidationError::MemoryMapInvalid(reason))
            if reason.contains("smaller than memory descriptor")
    ));
}

#[test]
fn validate_memory_map_requires_entries_present() {
    let mut map = valid_memory_map();
    map.entry_count = 0;
    assert!(matches!(
        validate_memory_map(&map),
        Err(BootValidationError::MemoryMapInvalid(reason))
            if reason.contains("no memory descriptors")
    ));
}

#[test]
fn validate_memory_map_requires_map_size_multiple_of_entry_size() {
    let mut map = valid_memory_map();
    map.map_size = map.entry_size as u64 * map.entry_count as u64 + 1;
    assert!(matches!(
        validate_memory_map(&map),
        Err(BootValidationError::MemoryMapInvalid(reason))
            if reason.contains("not divisible")
    ));
}

#[test]
fn validate_memory_map_requires_nonzero_descriptor_buffer() {
    let mut map = valid_memory_map();
    map.descriptors_phys = 0;
    assert!(matches!(
        validate_memory_map(&map),
        Err(BootValidationError::MemoryMapInvalid(reason))
            if reason.contains("address is null")
    ));
}

#[test]
fn version_mismatch_reports_both_versions() {
    let mut abi = valid_boot_abi();
    abi.version = 2;
    match validate_boot_abi(&abi) {
        Err(BootValidationError::VersionMismatch { expected, found }) => {
            assert_eq!(expected, 1);
            assert_eq!(found, 2);
        }
        other => panic!("unexpected result: {:?}", other),
    }
}

#[test]
fn undersized_framebuffer_is_refused() {
    let fb = Framebuffer {
        base_address: 0x1000,
        buffer_size: 100,
        width: 100,
        height: 100,
        pixels_per_scanline: 100,
        pixel_format: PixelFormat::Rgb,
    };
    match validate_framebuffer(&fb) {
        Err(BootValidationError::FramebufferInvalid(reason)) => {
            assert!(reason.contains("smaller than required"))
        }
        other => panic!("unexpected result: {:?}", other),
    }
}

#[test]
fn framebuffer_size_is_checked_beyond_64_bits() {
    // 4 * 0xffff_ffff * 0xffff_ffff does not fit in 64 bits; no buffer is that large.
    let fb = Framebuffer {
        base_address: 0x1000,
        buffer_size: u64::MAX,
        width: 1,
        height: u32::MAX,
        pixels_per_scanline: u32::MAX,
        pixel_format: PixelFormat::Rgb,
    };
    assert!(validate_framebuffer(&fb).is_err());
}

#[test]
fn framebuffer_of_exactly_the_required_size_is_accepted() {
    let fb = Framebuffer {
        base_address: 0x4000_0000,
        buffer_size: 4 * 800 * 600,
        width: 800,
        height: 600,
        pixels_per_scanline: 800,
        pixel_format: PixelFormat::Bgr,
    };
    assert!(validate_framebuffer(&fb).is_ok());
    let short = Framebuffer { buffer_size: 4 * 800 * 600 - 1, ..fb };
    assert!(validate_framebuffer(&short).is_err());
}

#[test]
fn memory_map_with_count_at_capacity_is_accepted() {
    let mut map = valid_memory_map();
    map.entry_size = 48;
    map.map_size = 48 * 4;
    map.entry_count = 4;
    assert!(validate_memory_map(&map).is_ok());
    map.entry_count = 5;
    assert!(validate_memory_map(&map).is_err());
}
