use oxide_boot::abi::{EfiMemoryType, MemoryDescriptor, MemoryMap, MEMORY_DESCRIPTOR_SIZE};
use oxide_boot::memory::allocator::ReservedRegion;
use oxide_boot::memory::early::{
    align_up, allocate_region, ranges_overlap, ReservationList, MAX_EARLY_RESERVATIONS,
};
use oxide_boot::memory::error::{FrameAllocError, MemoryInitError};
use oxide_boot::memory::frame::{FrameAllocator, GapTracker, RunTracker, UsableFrameIter};
use oxide_boot::memory::map::{
    descriptor_range, find_descriptor_containing, MemoryMapIter, FRAME_SIZE,
};
use oxide_boot::memory::paging::FrameSource;

fn descriptor(typ: EfiMemoryType, physical_start: u64, pages: u64) -> MemoryDescriptor {
    MemoryDescriptor {
        typ: typ as u32,
        _pad: 0,
        physical_start,
        virtual_start: 0,
        number_of_pages: pages,
        attribute: 0,
    }
}

fn encode(descriptors: &[MemoryDescriptor], entry_size: u32) -> Vec<u8> {
    let mut backing: Vec<u8> = Vec::new();
    for d in descriptors {
        let at = backing.len();
        backing.extend_from_slice(&d.typ.to_le_bytes());
        backing.extend_from_slice(&d._pad.to_le_bytes());
        backing.extend_from_slice(&d.physical_start.to_le_bytes());
        backing.extend_from_slice(&d.virtual_start.to_le_bytes());
        backing.extend_from_slice(&d.number_of_pages.to_le_bytes());
        backing.extend_from_slice(&d.attribute.to_le_bytes());
        backing.resize(at + entry_size as usize, 0xee);
    }
    backing
}

fn build_map(descriptors: Vec<MemoryDescriptor>) -> (MemoryMap, Vec<u8>) {
    let entry_size = MEMORY_DESCRIPTOR_SIZE;
    let entry_count = descriptors.len() as u32;
    let backing = encode(&descriptors, entry_size);
    let map = MemoryMap {
        descriptors_phys: backing.as_ptr() as u64,
        map_size: (entry_size as u64) * (entry_count as u64),
        entry_size,
        entry_version: 1,
        entry_count,
    };
    (map, backing)
}

fn all_frames(map: &MemoryMap, backing: &[u8], reserved: &ReservationList) -> Vec<u64> {
    let mut iter = UsableFrameIter::new(map, backing, reserved);
    let mut out = Vec::new();
    while let Some(frame) = iter.next() {
        out.push(frame);
    }
    out
}

#[test]
fn alloc_returns_frames_in_sequence() {
    let descriptors = vec![descriptor(EfiMemoryType::ConventionalMemory, FRAME_SIZE, 3)];
    let (map, backing) = build_map(descriptors);
    let reserved = ReservationList::new();
    let mut allocator = FrameAllocator::new(&map, &backing, &reserved);

    assert_eq!(allocator.alloc_frame(), Some(FRAME_SIZE));
    assert_eq!(allocator.alloc_frame(), Some(FRAME_SIZE * 2));
    assert_eq!(allocator.alloc_frame(), Some(FRAME_SIZE * 3));
    assert_eq!(allocator.alloc_frame(), None);
}

#[test]
fn alloc_skips_non_conventional_regions() {
    let descriptors = vec![
        descriptor(EfiMemoryType::LoaderCode, FRAME_SIZE, 2),
        descriptor(EfiMemoryType::ConventionalMemory, FRAME_SIZE * 5, 1),
    ];
    let (map, backing) = build_map(descriptors);
    let reserved = ReservationList::new();
    let mut allocator = FrameAllocator::new(&map, &backing, &reserved);

    assert_eq!(allocator.alloc_frame(), Some(FRAME_SIZE * 5));
    assert_eq!(allocator.alloc_frame(), None);
}

#[test]
fn alloc_contiguous_returns_run_start() {
    let descriptors = vec![descriptor(EfiMemoryType::ConventionalMemory, FRAME_SIZE, 4)];
    let (map, backing) = build_map(descriptors);
    let reserved = ReservationList::new();
    let mut allocator = FrameAllocator::new(&map, &backing, &reserved);

    assert_eq!(allocator.alloc_contiguous(2), Ok(FRAME_SIZE));
    assert_eq!(allocator.alloc_frame(), Some(FRAME_SIZE * 3));
}

#[test]
fn alloc_contiguous_rejects_zero_request() {
    let descriptors = vec![descriptor(EfiMemoryType::ConventionalMemory, FRAME_SIZE, 1)];
    let (map, backing) = build_map(descriptors);
    let reserved = ReservationList::new();
    let mut allocator = FrameAllocator::new(&map, &backing, &reserved);

    assert_eq!(allocator.alloc_contiguous(0), Err(FrameAllocError::InvalidRequest));
}

#[test]
fn frame_alloc_contiguous_rejects_zero_request() {
    let descriptors = vec![descriptor(EfiMemoryType::ConventionalMemory, FRAME_SIZE, 1)];
    let (map, backing) = build_map(descriptors);
    let reserved = ReservationList::new();
    let mut allocator = FrameAllocator::new(&map, &backing, &reserved);

    assert_eq!(allocator.alloc_contiguous(0), Err(FrameAllocError::InvalidRequest));
    assert_eq!(allocator.alloc_frame(), Some(FRAME_SIZE));
}

#[test]
fn alloc_contiguous_detects_gaps() {
    let descriptors = vec![
        descriptor(EfiMemoryType::ConventionalMemory, FRAME_SIZE, 2),
        descriptor(EfiMemoryType::ConventionalMemory, FRAME_SIZE * 5, 2),
    ];
    let (map, backing) = build_map(descriptors);
    let reserved = ReservationList::new();
    let mut allocator = FrameAllocator::new(&map, &backing, &reserved);

    assert_eq!(
        allocator.alloc_contiguous(3),
        Err(FrameAllocError::NonContiguous { expected: FRAME_SIZE * 3, found: FRAME_SIZE * 5 })
    );
}

#[test]
fn alloc_contiguous_reports_out_of_frames() {
    let descriptors = vec![descriptor(EfiMemoryType::ConventionalMemory, FRAME_SIZE, 2)];
    let (map, backing) = build_map(descriptors);
    let reserved = ReservationList::new();
    let mut allocator = FrameAllocator::new(&map, &backing, &reserved);

    assert_eq!(allocator.alloc_contiguous(4), Err(FrameAllocError::OutOfFrames));
}

#[test]
fn descriptor_range_returns_span() {
    let desc = descriptor(EfiMemoryType::ConventionalMemory, 0x2000, 3);
    assert_eq!(descriptor_range(&desc), Some((0x2000, 0x2000 + 3 * FRAME_SIZE)));
}

#[test]
fn descriptor_range_detects_overflow() {
    let desc = descriptor(EfiMemoryType::ConventionalMemory, u64::MAX - FRAME_SIZE + 1, u64::MAX);
    assert!(descriptor_range(&desc).is_none());
}

#[test]
fn find_descriptor_containing_returns_match() {
    let descriptors = vec![
        descriptor(EfiMemoryType::LoaderCode, 0x1000, 1),
        descriptor(EfiMemoryType::ConventionalMemory, 0x4000, 2),
    ];
    let (map, backing) = build_map(descriptors);

    let found = find_descriptor_containing(&map, &backing, 0x4000 + FRAME_SIZE / 2).unwrap();
    assert_eq!(found.physical_start, 0x4000);
}

#[test]
fn find_descriptor_containing_returns_none_when_absent() {
    let descriptors = vec![descriptor(EfiMemoryType::ConventionalMemory, 0x8000, 1)];
    let (map, backing) = build_map(descriptors);

    assert!(find_descriptor_containing(&map, &backing, 0x1000).is_none());
}

#[test]
fn memory_map_iter_yields_descriptors_in_order() {
    let descriptors = vec![
        descriptor(EfiMemoryType::ConventionalMemory, 0x1000, 1),
        descriptor(EfiMemoryType::ConventionalMemory, 0x2000, 1),
        descriptor(EfiMemoryType::ConventionalMemory, 0x3000, 1),
    ];
    let (map, backing) = build_map(descriptors);

    let mut iter = MemoryMapIter::new(&map, &backing);
    let mut collected: Vec<u64> = Vec::new();
    while let Some(desc) = iter.next() {
        collected.push(desc.physical_start);
    }

    assert_eq!(collected, vec![0x1000, 0x2000, 0x3000]);
}

#[test]
fn iterator_steps_by_the_stride_and_decodes_every_field() {
    let descriptors = vec![
        MemoryDescriptor {
            typ: 7,
            _pad: 0x0102_0304,
            physical_start: 0x1122_3344_5566_7000,
            virtual_start: 0x8877_6655_4433_2211,
            number_of_pages: 0x0000_0001_0000_0002,
            attribute: 0xf,
        },
        descriptor(EfiMemoryType::ACPIReclaimMemory, 0x9000, 5),
    ];
    let backing = encode(&descriptors, 48);
    let map = MemoryMap {
        descriptors_phys: 0x1000,
        map_size: 96,
        entry_size: 48,
        entry_version: 1,
        entry_count: 2,
    };
    let mut iter = MemoryMapIter::new(&map, &backing);
    assert_eq!(iter.remaining(), 2);
    assert_eq!(iter.next(), Some(descriptors[0]));
    assert_eq!(iter.next(), Some(descriptors[1]));
    assert_eq!(iter.next(), None);
    assert_eq!(iter.next(), None);
}

#[test]
fn iterator_leaves_out_descriptors_beyond_the_buffer() {
    let descriptors = vec![
        descriptor(EfiMemoryType::ConventionalMemory, 0x1000, 1),
        descriptor(EfiMemoryType::ConventionalMemory, 0x2000, 1),
    ];
    let backing = encode(&descriptors, 40);
    let map = MemoryMap {
        descriptors_phys: 0x1000,
        map_size: 400,
        entry_size: 40,
        entry_version: 1,
        entry_count: 10,
    };
    let iter = MemoryMapIter::new(&map, &backing);
    assert_eq!(iter.remaining(), 2);
    let short = MemoryMapIter::new(&map, &backing[..79]);
    assert_eq!(short.remaining(), 1);
    let none = MemoryMapIter::new(&map, &backing[..39]);
    assert_eq!(none.remaining(), 0);
}

#[test]
fn find_descriptor_takes_the_first_match() {
    let descriptors = vec![
        descriptor(EfiMemoryType::LoaderData, 0x4000, 4),
        descriptor(EfiMemoryType::ConventionalMemory, 0x4000, 2),
    ];
    let (map, backing) = build_map(descriptors);
    let found = find_descriptor_containing(&map, &backing, 0x5000).unwrap();
    assert_eq!(found.typ, EfiMemoryType::LoaderData as u32);
    assert!(find_descriptor_containing(&map, &backing, 0x8000).is_none());
    assert!(find_descriptor_containing(&map, &backing, 0x3fff).is_none());
}

#[test]
fn single_descriptor_yields_each_of_its_frames() {
    let (map, backing) =
        build_map(vec![descriptor(EfiMemoryType::ConventionalMemory, 4096, 7)]);
    let reserved = ReservationList::new();
    assert_eq!(
        all_frames(&map, &backing, &reserved),
        vec![4096, 8192, 12288, 16384, 20480, 24576, 28672]
    );
}

#[test]
fn zero_page_is_never_yielded() {
    let (map, backing) = build_map(vec![descriptor(EfiMemoryType::ConventionalMemory, 0, 3)]);
    let reserved = ReservationList::new();
    assert_eq!(all_frames(&map, &backing, &reserved), vec![4096, 8192]);
}

#[test]
fn descriptors_without_frames_are_passed_over() {
    let (map, backing) = build_map(vec![
        descriptor(EfiMemoryType::ConventionalMemory, 0x3000, 0),
        descriptor(EfiMemoryType::ConventionalMemory, u64::MAX - 0xfff, 2),
        descriptor(EfiMemoryType::ConventionalMemory, 0x3400, 1),
        descriptor(EfiMemoryType::BootServicesData, 0x9000, 4),
        descriptor(EfiMemoryType::ConventionalMemory, 0x20_0000, 1),
    ]);
    let reserved = ReservationList::new();
    assert_eq!(all_frames(&map, &backing, &reserved), vec![0x4000, 0x20_0000]);
}

#[test]
fn reserved_frames_are_skipped() {
    let (map, backing) =
        build_map(vec![descriptor(EfiMemoryType::ConventionalMemory, 0x1000, 8)]);
    let mut reserved = ReservationList::new();
    reserved.push(ReservedRegion { start: 0x2000, end: 0x3800 }).unwrap();
    reserved.push(ReservedRegion { start: 0x7000, end: 0x20000 }).unwrap();
    assert_eq!(
        all_frames(&map, &backing, &reserved),
        vec![0x1000, 0x4000, 0x5000, 0x6000]
    );
}

#[test]
fn contiguous_request_restarts_after_a_gap() {
    let (map, backing) = build_map(vec![
        descriptor(EfiMemoryType::ConventionalMemory, 0x1000, 2),
        descriptor(EfiMemoryType::ConventionalMemory, 0x8000, 4),
    ]);
    let reserved = ReservationList::new();
    let mut allocator = FrameAllocator::new(&map, &backing, &reserved);
    assert_eq!(allocator.alloc_contiguous(3), Ok(0x8000));
    assert_eq!(allocator.alloc_frame(), Some(0xb000));
    assert_eq!(allocator.alloc_frame(), None);
}

#[test]
fn three_single_pages_cannot_hold_four_frames() {
    let (map, backing) = build_map(vec![
        descriptor(EfiMemoryType::ConventionalMemory, 0x1000, 1),
        descriptor(EfiMemoryType::LoaderData, 0x2000, 1),
        descriptor(EfiMemoryType::ConventionalMemory, 0x3000, 1),
        descriptor(EfiMemoryType::LoaderData, 0x4000, 1),
        descriptor(EfiMemoryType::ConventionalMemory, 0x5000, 1),
    ]);
    let reserved = ReservationList::new();
    let mut allocator = FrameAllocator::new(&map, &backing, &reserved);
    assert_eq!(
        allocator.alloc_contiguous(4),
        Err(FrameAllocError::NonContiguous { expected: 0x2000, found: 0x3000 })
    );
    assert_eq!(allocator.alloc_frame(), None);
}

#[test]
fn frame_allocator_is_a_frame_source() {
    let (map, backing) =
        build_map(vec![descriptor(EfiMemoryType::ConventionalMemory, 0x1000, 1)]);
    let reserved = ReservationList::new();
    let mut allocator = FrameAllocator::new(&map, &backing, &reserved);
    assert_eq!(allocator.allocate_frame(), Some(0x1000));
    assert_eq!(allocator.allocate_frame(), None);
}

#[test]
fn trackers_follow_runs_and_keep_the_first_gap() {
    let mut gaps = GapTracker::new();
    let mut run = RunTracker::new(3);
    assert!(!run.is_complete());
    assert_eq!(run.start_address(), None);
    run.update(0x1000, &mut gaps);
    run.update(0x2000, &mut gaps);
    assert_eq!((run.start, run.previous, run.length), (Some(0x1000), 0x2000, 2));
    run.update(0x5000, &mut gaps);
    assert_eq!(gaps.first(), Some((0x3000, 0x5000)));
    assert_eq!((run.start, run.length), (Some(0x5000), 1));
    run.update(0x9000, &mut gaps);
    assert_eq!(gaps.first(), Some((0x3000, 0x5000)));
    run.update(0xa000, &mut gaps);
    run.update(0xb000, &mut gaps);
    assert!(run.is_complete());
    assert_eq!(run.start_address(), Some(0x9000));
    run.restart(0x1_0000);
    assert_eq!((run.start, run.previous, run.length, run.required), (Some(0x1_0000), 0x1_0000, 1, 3));
}

#[test]
fn early_reservations_stay_sorted_and_apart() {
    let mut list = ReservationList::new();
    list.push(ReservedRegion { start: 0x5000, end: 0x6000 }).unwrap();
    list.push(ReservedRegion { start: 0x1000, end: 0x2000 }).unwrap();
    list.push(ReservedRegion { start: 0x3000, end: 0x4000 }).unwrap();
    assert_eq!(
        list.as_slice(),
        &[
            ReservedRegion { start: 0x1000, end: 0x2000 },
            ReservedRegion { start: 0x3000, end: 0x4000 },
            ReservedRegion { start: 0x5000, end: 0x6000 },
        ]
    );
    assert_eq!(
        list.push(ReservedRegion { start: 0x3800, end: 0x5800 }),
        Err(MemoryInitError::TooLarge)
    );
    assert_eq!(list.push(ReservedRegion { start: 9, end: 9 }), Err(MemoryInitError::TooLarge));
    assert_eq!(list.len(), 3);
    assert_eq!(list.contains(0x3fff), Some(ReservedRegion { start: 0x3000, end: 0x4000 }));
    assert_eq!(list.contains(0x4000), None);
    assert_eq!(
        list.overlaps(ReservedRegion { start: 0x1800, end: 0x9000 }),
        Some(ReservedRegion { start: 0x1000, end: 0x2000 })
    );
    assert_eq!(list.overlaps(ReservedRegion { start: 0x2000, end: 0x3000 }), None);
}

#[test]
fn early_reservations_hold_sixteen_regions() {
    let mut list = ReservationList::new();
    for i in 0..MAX_EARLY_RESERVATIONS as u64 {
        list.push(ReservedRegion { start: i * 0x1000, end: i * 0x1000 + 1 }).unwrap();
    }
    assert_eq!(
        list.push(ReservedRegion { start: 0x100_0000, end: 0x100_0001 }),
        Err(MemoryInitError::TooLarge)
    );
    assert_eq!(list.len(), 16);
}

#[test]
fn region_allocation_takes_the_lowest_free_place() {
    let (map, backing) = build_map(vec![
        descriptor(EfiMemoryType::LoaderData, 0x1000, 16),
        descriptor(EfiMemoryType::ConventionalMemory, 0, 4),
        descriptor(EfiMemoryType::ConventionalMemory, 0x10_0000, 16),
    ]);
    let mut list = ReservationList::new();
    assert_eq!(
        allocate_region(&map, &backing, &mut list, 1),
        Ok(ReservedRegion { start: 0x1000, end: 0x2000 })
    );
    assert_eq!(
        allocate_region(&map, &backing, &mut list, 0x2001),
        Ok(ReservedRegion { start: 0x10_0000, end: 0x10_3000 })
    );
    assert_eq!(
        allocate_region(&map, &backing, &mut list, 0x1000),
        Ok(ReservedRegion { start: 0x2000, end: 0x3000 })
    );
    assert_eq!(
        allocate_region(&map, &backing, &mut list, 0xd000),
        Ok(ReservedRegion { start: 0x10_3000, end: 0x11_0000 })
    );
    assert_eq!(
        allocate_region(&map, &backing, &mut list, 0x2000),
        Err(MemoryInitError::OutOfFrames)
    );
    assert_eq!(allocate_region(&map, &backing, &mut list, 0), Err(MemoryInitError::TooLarge));
    assert_eq!(list.len(), 4);
}

#[test]
fn early_helpers_give_exact_values() {
    assert_eq!(align_up(0x1001, 0x1000), Some(0x2000));
    assert_eq!(align_up(0x1000, 0x1000), Some(0x1000));
    assert_eq!(align_up(5, 0), None);
    assert_eq!(align_up(u64::MAX, 0x1000), None);
    assert!(ranges_overlap(0, 10, 9, 20));
    assert!(!ranges_overlap(0, 10, 10, 20));
}
