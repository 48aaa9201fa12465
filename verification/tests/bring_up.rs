use oxide_boot::abi::{
    BootAbi, EfiMemoryType, Firmware, Framebuffer, MemoryDescriptor, MemoryMap, Options,
    PixelFormat, MEMORY_DESCRIPTOR_SIZE,
};
use oxide_boot::boot::validate_boot_abi;
use oxide_boot::errors::KernelError;
use oxide_boot::memory::allocator::{PhysFrame, ReservedRegion};
use oxide_boot::memory::early::ReservationList as EarlyReservations;
use oxide_boot::memory::error::{
    init_error_from_frame_error, FrameAllocError, MemoryInitError, PagingError,
    PhysAllocInitError,
};
use oxide_boot::memory::frame::{FrameAllocator, UsableFrameIter};
use oxide_boot::memory::init::{
    carve_option_storage, claim_frames, copy_memory_map, ensure_usable_memory, initialize,
    kernel_code_identity_range, loader_stack_info, IdentityRanges, ReservationList,
};
use oxide_boot::memory::paging::{HUGE_PAGE_SIZE, PTE_PRESENT, PTE_PS, PTE_WRITABLE};

fn descriptor(typ: EfiMemoryType, physical_start: u64, pages: u64) -> MemoryDescriptor {
    MemoryDescriptor {
        typ: typ as u32,
        _pad: 0,
        physical_start,
        virtual_start: 0,
        number_of_pages: pages,
        attribute: 0,
    }
}

fn build_map(descriptors: Vec<MemoryDescriptor>) -> (MemoryMap, Vec<u8>) {
    let entry_size = MEMORY_DESCRIPTOR_SIZE;
    let entry_count = descriptors.len() as u32;
    let mut backing: Vec<u8> = Vec::new();
    for d in &descriptors {
        backing.extend_from_slice(&d.typ.to_le_bytes());
        backing.extend_from_slice(&d._pad.to_le_bytes());
        backing.extend_from_slice(&d.physical_start.to_le_bytes());
        backing.extend_from_slice(&d.virtual_start.to_le_bytes());
        backing.extend_from_slice(&d.number_of_pages.to_le_bytes());
        backing.extend_from_slice(&d.attribute.to_le_bytes());
    }
    let map = MemoryMap {
        descriptors_phys: 0x7000_0000,
        map_size: (entry_size as u64) * (entry_count as u64),
        entry_size,
        entry_version: 1,
        entry_count,
    };
    (map, backing)
}

fn framebuffer() -> Framebuffer {
    Framebuffer {
        base_address: 0x4000_0000,
        buffer_size: 0x00e1_0000,
        width: 800,
        height: 600,
        pixels_per_scanline: 800,
        pixel_format: PixelFormat::Rgb,
    }
}

fn happy_map() -> (MemoryMap, Vec<u8>) {
    build_map(vec![
        descriptor(EfiMemoryType::ConventionalMemory, 0x0000_1000, 256),
        descriptor(EfiMemoryType::LoaderCode, 0x0010_0000, 16),
        descriptor(EfiMemoryType::ConventionalMemory, 0x0020_0000, 2048),
    ])
}

#[test]
fn happy_path_bring_up() {
    let (map, backing) = happy_map();
    let abi = BootAbi {
        version: 1,
        options: Options { debug: 1, quiet: 0 },
        firmware: Firmware { revision: 0, vendor: [0; 32], vendor_len: 0, vendor_truncated: 0 },
        framebuffer: framebuffer(),
        tsc_frequency_hz: 0,
        memory_map: map,
    };
    assert!(validate_boot_abi(&abi).is_ok());

    let early = EarlyReservations::new();
    let mut walk = UsableFrameIter::new(&map, &backing, &early);
    let mut frames = 0;
    while walk.next().is_some() {
        frames += 1;
    }
    assert_eq!(frames, 256 + 2048);

    let layout =
        initialize(&map, &backing, &framebuffer(), &early, 0x0010_3000, 0x0010_8000, 24, 24)
            .unwrap();
    // The frame at 0x1000 went to the probe for usable memory.
    assert_eq!(layout.map_copy_range, (0x2000, 0x3000));
    assert_eq!(layout.kernel_memory_map.descriptors_phys, 0x2000);
    assert_eq!(layout.kernel_memory_map.map_size, map.map_size);
    assert_eq!(layout.stack.descriptor_type, EfiMemoryType::LoaderCode as u32);
    assert_eq!(layout.stack.range, (0x0010_0000, 0x0011_0000));
    assert_eq!(layout.kernel_code, Some(((0x0010_0000, 0x0011_0000), 1)));
    assert_eq!(
        layout.identity_ranges.as_slice(),
        &[(0x2000, 0x3000), (0x0010_0000, 0x0011_0000)]
    );
    assert_eq!(layout.free_storage, ReservedRegion { start: 0x3000, end: 0x4000 });
    assert_eq!(layout.reserved_storage, ReservedRegion { start: 0x4000, end: 0x5000 });
    assert_eq!(
        layout.reservations.as_slice(),
        &[
            ReservedRegion { start: 0x2000, end: 0x3000 },
            ReservedRegion { start: 0x0010_0000, end: 0x0011_0000 },
            ReservedRegion { start: 0x4000_0000, end: 0x40e1_0000 },
            ReservedRegion { start: 0x3000, end: 0x4000 },
            ReservedRegion { start: 0x4000, end: 0x5000 },
        ]
    );

    let mut free: Vec<PhysFrame> = Vec::new();
    let mut regions = layout.allocator.free_regions();
    while let Some(run) = regions.next() {
        free.push(run);
    }
    free.sort_by_key(|run| run.start);
    let sum: u64 = free.iter().map(|run| run.count * 4096).sum();
    assert!(sum <= 2304 * 4096);
    // The map copy and the two storage regions take three frames, the page
    // tables four, and one frame of the first descriptor lies under the
    // loader code, which is reserved as the stack.
    assert_eq!(sum, (2304 - 3 - 4 - 1) * 4096);
    assert_eq!(free, vec![PhysFrame::new(0x5000, 251), PhysFrame::new(0x0020_3000, 2045)]);

    let flags = PTE_PRESENT | PTE_WRITABLE | PTE_PS;
    let entries = layout.tables.directory_entries();
    for region in 0..512usize {
        assert_eq!(entries[region], (region as u64) * HUGE_PAGE_SIZE | flags);
    }
    for region in 512..520usize {
        assert_eq!(entries[region], (region as u64) * HUGE_PAGE_SIZE | flags);
    }
    assert_eq!(entries[520], 0);
    assert_eq!(layout.tables.pml4_phys(), 0x1000);
    assert_eq!(layout.tables.pdpt_phys(), 0x0020_0000);
}

#[test]
fn no_usable_memory() {
    let (map, backing) = build_map(vec![descriptor(EfiMemoryType::LoaderCode, 0x1000, 16)]);
    let early = EarlyReservations::new();
    assert_eq!(
        initialize(&map, &backing, &framebuffer(), &early, 0x2000, 0x3000, 24, 24).err(),
        Some(MemoryInitError::NoUsableMemory)
    );
    let mut alloc = FrameAllocator::new(&map, &backing, &early);
    assert_eq!(ensure_usable_memory(&mut alloc), Err(MemoryInitError::NoUsableMemory));
}

#[test]
fn non_contiguous_map_copy() {
    let (mut map, backing) = build_map(vec![
        descriptor(EfiMemoryType::ConventionalMemory, 0x1000, 1),
        descriptor(EfiMemoryType::LoaderData, 0x2000, 1),
        descriptor(EfiMemoryType::ConventionalMemory, 0x3000, 1),
        descriptor(EfiMemoryType::LoaderData, 0x4000, 1),
        descriptor(EfiMemoryType::ConventionalMemory, 0x5000, 1),
    ]);
    map.map_size = 3 * 4096 + 1;
    let early = EarlyReservations::new();
    // The probe for usable memory takes the first run; the copy then comes
    // across the gap between the second run and the third.
    assert_eq!(
        initialize(&map, &backing, &framebuffer(), &early, 0x2000, 0x3000, 24, 24).err(),
        Some(MemoryInitError::NonContiguous { expected: 0x3000 + 4096, found: 0x5000 })
    );
    let mut alloc = FrameAllocator::new(&map, &backing, &early);
    assert_eq!(ensure_usable_memory(&mut alloc), Ok(()));
    assert_eq!(
        copy_memory_map(&map, &mut alloc).err(),
        Some(MemoryInitError::NonContiguous { expected: 0x4000, found: 0x5000 })
    );
    let mut fresh = FrameAllocator::new(&map, &backing, &early);
    assert_eq!(
        copy_memory_map(&map, &mut fresh).err(),
        Some(MemoryInitError::NonContiguous { expected: 0x2000, found: 0x3000 })
    );
}

#[test]
fn bring_up_reports_a_missing_stack() {
    let (map, backing) = happy_map();
    let early = EarlyReservations::new();
    assert_eq!(
        initialize(&map, &backing, &framebuffer(), &early, 0x5000_0000, 0x0010_8000, 24, 24)
            .err(),
        Some(MemoryInitError::StackDescriptorMissing(0x5000_0000))
    );
    assert_eq!(
        loader_stack_info(&map, &backing, 0x5000_0000).err(),
        Some(MemoryInitError::StackDescriptorMissing(0x5000_0000))
    );
    assert_eq!(kernel_code_identity_range(&map, &backing, 0x5000_0000), None);
    assert_eq!(
        kernel_code_identity_range(&map, &backing, 0x0020_0000),
        Some(((0x0020_0000, 0x00a0_0000), 7))
    );
}

#[test]
fn bring_up_reports_an_empty_map_and_a_bad_framebuffer() {
    let (map, backing) = happy_map();
    let early = EarlyReservations::new();
    let empty = MemoryMap { map_size: 0, ..map };
    assert_eq!(
        initialize(&empty, &backing, &framebuffer(), &early, 0x0010_3000, 0x0010_8000, 24, 24)
            .err(),
        Some(MemoryInitError::EmptyMemoryMap)
    );
    let wrapped = Framebuffer { base_address: u64::MAX, buffer_size: 2, ..framebuffer() };
    assert_eq!(
        initialize(&map, &backing, &wrapped, &early, 0x0010_3000, 0x0010_8000, 24, 24).err(),
        Some(MemoryInitError::Paging(PagingError::AddressOverflow(u64::MAX, 2)))
    );
    let high = Framebuffer { base_address: 1 << 39, ..framebuffer() };
    assert_eq!(
        initialize(&map, &backing, &high, &early, 0x0010_3000, 0x0010_8000, 24, 24).err(),
        Some(MemoryInitError::Paging(PagingError::UnsupportedAddress(1 << 39)))
    );
}

#[test]
fn page_tables_need_two_frames_and_one_for_each_directory() {
    let early = EarlyReservations::new();
    // The probe, the map copy and the two storage regions take the frames
    // at 0x1000 to 0x4000; the probe's frame is not reserved and is free
    // again in the allocator. The low window and the framebuffer need two
    // directories, so the page tables take four frames.
    let (short, short_backing) = build_map(vec![
        descriptor(EfiMemoryType::ConventionalMemory, 0x0000_1000, 6),
        descriptor(EfiMemoryType::LoaderCode, 0x0010_0000, 16),
    ]);
    assert_eq!(
        initialize(&short, &short_backing, &framebuffer(), &early, 0x0010_3000, 0x0010_8000, 24, 24)
            .err(),
        Some(MemoryInitError::Paging(PagingError::OutOfFrames))
    );
    let (enough, enough_backing) = build_map(vec![
        descriptor(EfiMemoryType::ConventionalMemory, 0x0000_1000, 7),
        descriptor(EfiMemoryType::LoaderCode, 0x0010_0000, 16),
    ]);
    let layout = initialize(
        &enough,
        &enough_backing,
        &framebuffer(),
        &early,
        0x0010_3000,
        0x0010_8000,
        24,
        24,
    )
    .unwrap();
    assert_eq!(layout.tables.pml4_phys(), 0x1000);
    assert_eq!(layout.tables.pdpt_phys(), 0x5000);
    let mut regions = layout.allocator.free_regions();
    assert_eq!(regions.next(), None);
}

#[test]
fn stack_lookup_passes_over_descriptors_that_wrap() {
    let (map, backing) = build_map(vec![
        descriptor(EfiMemoryType::ConventionalMemory, 0x1000, 16),
        descriptor(EfiMemoryType::LoaderData, 0x8000_0000, u64::MAX),
    ]);
    // A descriptor whose end does not fit in 64 bits holds no address.
    assert_eq!(
        loader_stack_info(&map, &backing, 0x8000_1000).err(),
        Some(MemoryInitError::StackDescriptorMissing(0x8000_1000))
    );
    let found = loader_stack_info(&map, &backing, 0x2345).unwrap();
    assert_eq!(found.descriptor_type, 7);
    assert_eq!(found.range, (0x1000, 0x11000));
}

#[test]
fn early_reservations_are_kept_out_of_bring_up() {
    let (map, backing) = happy_map();
    let mut early = EarlyReservations::new();
    early.push(ReservedRegion { start: 0x1000, end: 0x9000 }).unwrap();
    let layout =
        initialize(&map, &backing, &framebuffer(), &early, 0x0010_3000, 0x0010_8000, 24, 24)
            .unwrap();
    assert_eq!(layout.map_copy_range, (0xa000, 0xb000));
    assert_eq!(layout.free_storage.start, 0xb000);
}

#[test]
fn storage_is_carved_in_whole_frames() {
    let (map, backing) = happy_map();
    let early = EarlyReservations::new();
    let mut alloc = FrameAllocator::new(&map, &backing, &early);
    assert_eq!(
        carve_option_storage(&mut alloc, 171, 24),
        Ok(ReservedRegion { start: 0x1000, end: 0x3000 })
    );
    assert_eq!(
        carve_option_storage(&mut alloc, 0, 24),
        Ok(ReservedRegion { start: 0x3000, end: 0x4000 })
    );
    assert_eq!(carve_option_storage(&mut alloc, 4, 0), Err(MemoryInitError::TooLarge));
    assert_eq!(carve_option_storage(&mut alloc, usize::MAX, 2), Err(MemoryInitError::TooLarge));
    assert_eq!(claim_frames(&mut alloc, 2), Ok((0x4000, 0x6000)));
    assert_eq!(
        carve_option_storage(&mut alloc, 4096 * 3000, 1),
        Err(MemoryInitError::NonContiguous { expected: 0x0010_1000, found: 0x0020_0000 })
    );
    assert_eq!(carve_option_storage(&mut alloc, 1, 1), Err(MemoryInitError::OutOfFrames));
}

#[test]
fn identity_ranges_hold_four_and_pass_over_repeats() {
    let mut ranges = IdentityRanges::new();
    assert_eq!(ranges.push((5, 5)), Ok(()));
    assert_eq!(ranges.push((1, 2)), Ok(()));
    assert_eq!(ranges.push((1, 2)), Ok(()));
    assert_eq!(ranges.push((3, 4)), Ok(()));
    assert_eq!(ranges.push((5, 6)), Ok(()));
    assert_eq!(ranges.push((7, 8)), Ok(()));
    assert_eq!(
        ranges.push((9, 10)),
        Err(MemoryInitError::IdentityRangeOverflow { start: 9, end: 10 })
    );
    assert_eq!(ranges.push((7, 8)), Ok(()));
    assert_eq!(ranges.as_slice(), &[(1, 2), (3, 4), (5, 6), (7, 8)]);
}

#[test]
fn staged_reservations_hold_eight() {
    let mut list = ReservationList::new();
    let first: Vec<(u64, u64)> = (0..8).map(|i| (i * 10, i * 10 + 1)).collect();
    assert_eq!(list.extend(&first), Ok(()));
    assert_eq!(list.len(), 8);
    assert_eq!(list.extend(&[(0, 1), (4, 4)]), Ok(()));
    assert_eq!(
        list.extend(&[(30, 31), (500, 501), (600, 601)]),
        Err(MemoryInitError::IdentityRangeOverflow { start: 500, end: 501 })
    );
    assert_eq!(list.as_slice()[7], ReservedRegion { start: 70, end: 71 });
}

#[test]
fn errors_convert_upwards() {
    assert_eq!(
        init_error_from_frame_error(FrameAllocError::OutOfFrames),
        MemoryInitError::OutOfFrames
    );
    assert_eq!(
        init_error_from_frame_error(FrameAllocError::NonContiguous { expected: 1, found: 2 }),
        MemoryInitError::NonContiguous { expected: 1, found: 2 }
    );
    assert_eq!(
        init_error_from_frame_error(FrameAllocError::InvalidRequest),
        MemoryInitError::EmptyMemoryMap
    );
    assert!(matches!(
        KernelError::from(MemoryInitError::TooLarge),
        KernelError::MemoryInit(MemoryInitError::TooLarge)
    ));
    assert!(matches!(
        KernelError::from(FrameAllocError::InvalidRequest),
        KernelError::FrameAlloc(FrameAllocError::InvalidRequest)
    ));
    let wrapped = MemoryInitError::Allocator(PhysAllocInitError::Empty);
    assert_eq!(wrapped, MemoryInitError::Allocator(PhysAllocInitError::Empty));
}
