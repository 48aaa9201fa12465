use oxide_boot::abi::{EfiMemoryType, MemoryDescriptor, MemoryMap, MEMORY_DESCRIPTOR_SIZE};
use oxide_boot::memory::allocator::{
    align_down, align_up, span_end, FrameSpan, PhysFrame, ReservedRegion, StoragePlan,
};
use oxide_boot::memory::error::{PhysAllocError, PhysAllocInitError};
use oxide_boot::memory::free_list::{FrameRunList, ReservedList};
use oxide_boot::memory::map::FRAME_SIZE;
use oxide_boot::memory::paging::FrameSource;
use oxide_boot::memory::physical::{runtime_storage_plan, PhysicalAllocator};

fn descriptor(typ: EfiMemoryType, physical_start: u64, pages: u64) -> MemoryDescriptor {
    MemoryDescriptor {
        typ: typ as u32,
        _pad: 0,
        physical_start,
        virtual_start: 0,
        number_of_pages: pages,
        attribute: 0,
    }
}

fn build_map(descriptors: Vec<MemoryDescriptor>) -> (MemoryMap, Vec<u8>) {
    let entry_size = MEMORY_DESCRIPTOR_SIZE;
    let entry_count = descriptors.len() as u32;
    let mut backing: Vec<u8> = Vec::new();
    for d in &descriptors {
        backing.extend_from_slice(&d.typ.to_le_bytes());
        backing.extend_from_slice(&d._pad.to_le_bytes());
        backing.extend_from_slice(&d.physical_start.to_le_bytes());
        backing.extend_from_slice(&d.virtual_start.to_le_bytes());
        backing.extend_from_slice(&d.number_of_pages.to_le_bytes());
        backing.extend_from_slice(&d.attribute.to_le_bytes());
    }
    let map = MemoryMap {
        descriptors_phys: backing.as_ptr() as u64,
        map_size: (entry_size as u64) * (entry_count as u64),
        entry_size,
        entry_version: 1,
        entry_count,
    };
    (map, backing)
}

fn runs_of(list: &FrameRunList) -> Vec<PhysFrame> {
    let mut out = Vec::new();
    let mut iter = list.iter();
    while let Some(frame) = iter.next() {
        out.push(frame);
    }
    out
}

fn free_runs(allocator: &PhysicalAllocator) -> Vec<PhysFrame> {
    let mut out = Vec::new();
    let mut iter = allocator.free_regions();
    while let Some(frame) = iter.next() {
        out.push(frame);
    }
    out.sort_by_key(|frame| frame.start);
    out
}

fn reserved_of(allocator: &PhysicalAllocator) -> Vec<ReservedRegion> {
    let mut out = Vec::new();
    let mut iter = allocator.reserved_regions();
    while let Some(region) = iter.next() {
        out.push(region);
    }
    out
}

#[test]
fn runtime_storage_plan_errors_on_empty_map() {
    let map = MemoryMap {
        descriptors_phys: 0,
        map_size: 0,
        entry_size: 0,
        entry_version: 0,
        entry_count: 0,
    };
    assert!(matches!(runtime_storage_plan(&map, &[], 0), Err(PhysAllocInitError::Empty)));
}

#[test]
fn runtime_storage_plan_counts_conventional_regions() {
    let descriptors = vec![
        descriptor(EfiMemoryType::ConventionalMemory, FRAME_SIZE, 1),
        descriptor(EfiMemoryType::LoaderCode, FRAME_SIZE * 4, 1),
        descriptor(EfiMemoryType::ConventionalMemory, FRAME_SIZE * 8, 2),
    ];
    let (map, backing) = build_map(descriptors);

    let plan = runtime_storage_plan(&map, &backing, 3).unwrap();
    assert_eq!(plan.free_slots, (2 + 3) * 2);
    assert_eq!(plan.reserved_slots, 3 + 4);
}

#[test]
fn frame_span_validation_catches_errors() {
    assert_eq!(
        FrameSpan::new(0, 0).unwrap_err(),
        PhysAllocError::RangeMisaligned { start: 0, end: 0 }
    );

    let overflow_frame = PhysFrame::new(u64::MAX - FRAME_SIZE + 1, 2);
    assert!(matches!(
        FrameSpan::from_frame(overflow_frame),
        Err(PhysAllocError::RangeOverflow { .. })
    ));

    let span = FrameSpan::new(FRAME_SIZE, FRAME_SIZE * 3).unwrap();
    let removal = FrameSpan::new(FRAME_SIZE * 2, FRAME_SIZE * 4).unwrap();
    let (left, right) = span.subtract(&removal).unwrap();
    assert_eq!(left.unwrap().end, FRAME_SIZE * 2);
    assert!(right.is_none());
}

#[test]
fn frame_run_list_insert_coalesces_runs() {
    let mut runs = FrameRunList::new(vec![None; 4]);
    runs.insert(PhysFrame::new(FRAME_SIZE, 2)).unwrap();
    runs.insert(PhysFrame::new(FRAME_SIZE * 2, 2)).unwrap();

    let merged = runs_of(&runs);
    assert_eq!(merged.len(), 1);
    assert_eq!(merged[0].start, FRAME_SIZE);
    assert_eq!(merged[0].count, 3);
}

#[test]
fn frame_run_list_allocate_and_split() {
    let mut runs = FrameRunList::new(vec![None; 2]);
    runs.insert(PhysFrame::new(FRAME_SIZE, 4)).unwrap();

    let alloc = runs.allocate_count(2).unwrap();
    assert_eq!(alloc.unwrap().start, FRAME_SIZE);
    let remaining = runs_of(&runs);
    assert_eq!(remaining.len(), 1);
    assert_eq!(remaining[0].start, FRAME_SIZE * 3);
    assert_eq!(remaining[0].count, 2);
}

#[test]
fn frame_run_list_subtract_splits_range() {
    let mut runs = FrameRunList::new(vec![None; 4]);
    runs.insert(PhysFrame::new(FRAME_SIZE, 4)).unwrap();

    runs.subtract_range(FRAME_SIZE * 2, FRAME_SIZE * 3).unwrap();
    let mut spans = runs_of(&runs);
    spans.sort_by_key(|frame| frame.start);
    assert_eq!(spans.len(), 2);
    assert_eq!(spans[0], PhysFrame::new(FRAME_SIZE, 1));
    assert_eq!(spans[1], PhysFrame::new(FRAME_SIZE * 3, 2));
}

#[test]
fn frame_run_list_rejects_zero_allocation() {
    let mut runs = FrameRunList::new(vec![None; 1]);
    runs.insert(PhysFrame::new(FRAME_SIZE, 1)).unwrap();
    assert_eq!(
        runs.allocate_count(0).unwrap_err(),
        PhysAllocError::UnsupportedFrameCount { frames: 0 }
    );
}

#[test]
fn physical_allocator_applies_reservations() {
    let descriptors = vec![descriptor(EfiMemoryType::ConventionalMemory, FRAME_SIZE, 4)];
    let (map, backing) = build_map(descriptors);
    let reservations = [ReservedRegion { start: FRAME_SIZE * 2, end: FRAME_SIZE * 3 }];

    let mut allocator = PhysicalAllocator::from_memory_map(
        map,
        &backing,
        &reservations,
        vec![None; 8],
        vec![None; 8],
    )
    .unwrap();

    let runs = free_runs(&allocator);
    assert_eq!(runs.len(), 2);
    assert_eq!(runs[0], PhysFrame::new(FRAME_SIZE, 1));
    assert_eq!(runs[1], PhysFrame::new(FRAME_SIZE * 3, 2));

    let frame = allocator.allocate().unwrap();
    allocator.free(frame).unwrap();

    allocator.reserve(ReservedRegion { start: FRAME_SIZE * 3, end: FRAME_SIZE * 4 }).unwrap();
    let remaining = free_runs(&allocator);
    assert_eq!(remaining.len(), 2);
    assert_eq!(remaining[0], PhysFrame::new(FRAME_SIZE, 1));
    assert_eq!(remaining[1], PhysFrame::new(FRAME_SIZE * 4, 1));
}

#[test]
fn align_helpers_behave_as_expected() {
    assert_eq!(align_down(FRAME_SIZE * 3 + 123), FRAME_SIZE * 3);
    assert_eq!(align_up(FRAME_SIZE * 3 + 1), FRAME_SIZE * 4);
    assert_eq!(span_end(FRAME_SIZE, 2), Some(FRAME_SIZE * 3));
}

#[test]
fn align_up_is_held_to_the_last_boundary() {
    assert_eq!(align_up(u64::MAX), 0xffff_ffff_ffff_f000);
    assert_eq!(align_up(0), 0);
    assert_eq!(align_up(FRAME_SIZE), FRAME_SIZE);
    assert_eq!(align_down(u64::MAX), 0xffff_ffff_ffff_f000);
    assert_eq!(span_end(u64::MAX, 1), None);
    assert_eq!(span_end(0, u64::MAX), None);
}

#[test]
fn storage_plan_total_is_capped() {
    let plan = StoragePlan { free_slots: 10, reserved_slots: 7 };
    assert_eq!(plan.total_slots(), 17);
    let big = StoragePlan { free_slots: usize::MAX, reserved_slots: 2 };
    assert_eq!(big.total_slots(), usize::MAX);
}

#[test]
fn storage_plan_without_reservations() {
    let descriptors = vec![
        descriptor(EfiMemoryType::ConventionalMemory, FRAME_SIZE, 1),
        descriptor(EfiMemoryType::ConventionalMemory, FRAME_SIZE * 8, 2),
        descriptor(EfiMemoryType::ConventionalMemory, FRAME_SIZE * 16, 2),
        descriptor(EfiMemoryType::ConventionalMemory, FRAME_SIZE * 32, 2),
        descriptor(EfiMemoryType::ConventionalMemory, FRAME_SIZE * 64, 2),
        descriptor(EfiMemoryType::ConventionalMemory, FRAME_SIZE * 128, 0),
    ];
    let (map, backing) = build_map(descriptors);
    let plan = runtime_storage_plan(&map, &backing, 0).unwrap();
    assert_eq!(plan.free_slots, 10);
    assert_eq!(plan.reserved_slots, 5);
}

#[test]
fn storage_plan_needs_conventional_memory() {
    let descriptors = vec![
        descriptor(EfiMemoryType::LoaderCode, FRAME_SIZE, 1),
        descriptor(EfiMemoryType::ConventionalMemory, FRAME_SIZE * 8, 0),
    ];
    let (map, backing) = build_map(descriptors);
    assert_eq!(runtime_storage_plan(&map, &backing, 2).unwrap_err(), PhysAllocInitError::Empty);
}

#[test]
fn adjacent_runs_become_one_in_either_order() {
    let a = PhysFrame::new(FRAME_SIZE * 4, 2);
    let b = PhysFrame::new(FRAME_SIZE * 6, 3);
    let mut runs = FrameRunList::new(vec![None; 4]);
    runs.insert(a).unwrap();
    runs.insert(b).unwrap();
    assert_eq!(runs_of(&runs), vec![PhysFrame::new(FRAME_SIZE * 4, 5)]);

    let mut other = FrameRunList::new(vec![None; 4]);
    other.insert(b).unwrap();
    other.insert(a).unwrap();
    assert_eq!(runs_of(&other), vec![PhysFrame::new(FRAME_SIZE * 4, 5)]);
    assert_eq!(other.len(), 1);
}

#[test]
fn disjoint_runs_stay_apart() {
    let mut runs = FrameRunList::new(vec![None; 4]);
    runs.insert(PhysFrame::new(FRAME_SIZE, 1)).unwrap();
    runs.insert(PhysFrame::new(FRAME_SIZE * 10, 2)).unwrap();
    runs.insert(PhysFrame::new(FRAME_SIZE * 20, 3)).unwrap();
    assert_eq!(
        runs_of(&runs),
        vec![
            PhysFrame::new(FRAME_SIZE, 1),
            PhysFrame::new(FRAME_SIZE * 10, 2),
            PhysFrame::new(FRAME_SIZE * 20, 3),
        ]
    );
    assert_eq!(runs.len(), 3);
    assert_eq!(runs.capacity(), 4);
}

#[test]
fn free_between_two_runs_merges_all_three() {
    let descriptors = vec![descriptor(EfiMemoryType::ConventionalMemory, FRAME_SIZE, 6)];
    let (map, backing) = build_map(descriptors);
    let reservations = [ReservedRegion { start: FRAME_SIZE * 3, end: FRAME_SIZE * 5 }];
    let mut allocator = PhysicalAllocator::from_memory_map(
        map,
        &backing,
        &reservations,
        vec![None; 4],
        vec![None; 4],
    )
    .unwrap();
    assert_eq!(
        free_runs(&allocator),
        vec![PhysFrame::new(FRAME_SIZE, 2), PhysFrame::new(FRAME_SIZE * 5, 2)]
    );
    allocator.free(PhysFrame::new(FRAME_SIZE * 3, 2)).unwrap();
    assert_eq!(free_runs(&allocator), vec![PhysFrame::new(FRAME_SIZE, 6)]);
}

#[test]
fn allocate_then_free_restores_the_free_bytes() {
    let descriptors = vec![
        descriptor(EfiMemoryType::ConventionalMemory, FRAME_SIZE, 4),
        descriptor(EfiMemoryType::ConventionalMemory, FRAME_SIZE * 16, 8),
    ];
    let (map, backing) = build_map(descriptors);
    let mut allocator =
        PhysicalAllocator::from_memory_map(map, &backing, &[], vec![None; 2], vec![None; 1])
            .unwrap();
    let before = free_runs(&allocator);
    for order in [0u8, 1, 2, 3] {
        let frame = allocator.allocate_order(order).unwrap();
        assert_eq!(frame.count, 1 << order);
        allocator.free(frame).unwrap();
        assert_eq!(free_runs(&allocator), before);
    }
}

#[test]
fn allocation_is_first_fit_in_slot_order() {
    let descriptors = vec![
        descriptor(EfiMemoryType::ConventionalMemory, FRAME_SIZE * 64, 2),
        descriptor(EfiMemoryType::ConventionalMemory, FRAME_SIZE * 8, 8),
        descriptor(EfiMemoryType::ConventionalMemory, FRAME_SIZE * 32, 4),
    ];
    let (map, backing) = build_map(descriptors);
    let mut allocator =
        PhysicalAllocator::from_memory_map(map, &backing, &[], vec![None; 6], vec![None; 4])
            .unwrap();
    assert_eq!(allocator.allocate_order(2).unwrap(), PhysFrame::new(FRAME_SIZE * 8, 4));
    assert_eq!(allocator.allocate().unwrap(), PhysFrame::new(FRAME_SIZE * 64, 1));
    assert_eq!(allocator.allocate_order(2).unwrap(), PhysFrame::new(FRAME_SIZE * 12, 4));
    assert_eq!(allocator.allocate_order(2).unwrap(), PhysFrame::new(FRAME_SIZE * 32, 4));
    assert_eq!(allocator.allocate_order(1).unwrap_err(), PhysAllocError::OutOfMemory);
    assert_eq!(allocator.allocate().unwrap(), PhysFrame::new(FRAME_SIZE * 65, 1));
    assert_eq!(allocator.allocate().unwrap_err(), PhysAllocError::OutOfMemory);
    assert_eq!(
        allocator.allocate_order(64).unwrap_err(),
        PhysAllocError::UnsupportedFrameCount { frames: 0 }
    );
}

#[test]
fn reservation_carves_the_free_list() {
    let descriptors = vec![descriptor(EfiMemoryType::ConventionalMemory, 0x1000, 4)];
    let (map, backing) = build_map(descriptors);
    let reservations = [ReservedRegion { start: 0x2000, end: 0x3000 }];
    let allocator = PhysicalAllocator::from_memory_map(
        map,
        &backing,
        &reservations,
        vec![None; 4],
        vec![None; 4],
    )
    .unwrap();
    assert_eq!(
        free_runs(&allocator),
        vec![PhysFrame::new(0x1000, 1), PhysFrame::new(0x3000, 2)]
    );
    assert_eq!(reserved_of(&allocator), vec![ReservedRegion { start: 0x2000, end: 0x3000 }]);
}

#[test]
fn reservations_are_widened_to_frames() {
    let descriptors = vec![descriptor(EfiMemoryType::ConventionalMemory, 0x1000, 8)];
    let (map, backing) = build_map(descriptors);
    let reservations = [ReservedRegion { start: 0x2800, end: 0x4001 }];
    let allocator = PhysicalAllocator::from_memory_map(
        map,
        &backing,
        &reservations,
        vec![None; 4],
        vec![None; 4],
    )
    .unwrap();
    assert_eq!(
        free_runs(&allocator),
        vec![PhysFrame::new(0x1000, 1), PhysFrame::new(0x5000, 4)]
    );
}

#[test]
fn construction_reports_each_kind_of_failure() {
    let (empty_map, empty_backing) =
        build_map(vec![descriptor(EfiMemoryType::LoaderData, 0x1000, 4)]);
    assert_eq!(
        PhysicalAllocator::from_memory_map(
            empty_map,
            &empty_backing,
            &[],
            vec![None; 4],
            vec![None; 4]
        )
        .err(),
        Some(PhysAllocInitError::Empty)
    );

    let (map, backing) = build_map(vec![
        descriptor(EfiMemoryType::ConventionalMemory, 0x1000, 4),
        descriptor(EfiMemoryType::ConventionalMemory, 0x8000, 4),
    ]);
    assert_eq!(
        PhysicalAllocator::from_memory_map(map, &backing, &[], vec![None; 1], vec![None; 4]).err(),
        Some(PhysAllocInitError::InvalidDescriptor {
            index: 1,
            error: PhysAllocError::StorageExhausted { capacity: 1 },
        })
    );

    let (odd_map, odd_backing) =
        build_map(vec![descriptor(EfiMemoryType::ConventionalMemory, 0x1800, 4)]);
    assert_eq!(
        PhysicalAllocator::from_memory_map(
            odd_map,
            &odd_backing,
            &[],
            vec![None; 4],
            vec![None; 4]
        )
        .err(),
        Some(PhysAllocInitError::InvalidDescriptor {
            index: 0,
            error: PhysAllocError::RangeMisaligned { start: 0x1800, end: 0x5800 },
        })
    );

    let inverted = [ReservedRegion { start: 0x3000, end: 0x3000 }];
    assert_eq!(
        PhysicalAllocator::from_memory_map(map, &backing, &inverted, vec![None; 4], vec![None; 4])
            .err(),
        Some(PhysAllocInitError::ReservationConflict {
            start: 0x3000,
            end: 0x3000,
            error: PhysAllocError::InvalidRegion { start: 0x3000, end: 0x3000 },
        })
    );

    let two = [
        ReservedRegion { start: 0x1000, end: 0x2000 },
        ReservedRegion { start: 0x8000, end: 0x9000 },
    ];
    assert_eq!(
        PhysicalAllocator::from_memory_map(map, &backing, &two, vec![None; 4], vec![None; 1])
            .err(),
        Some(PhysAllocInitError::ReservationConflict {
            start: 0x8000,
            end: 0x9000,
            error: PhysAllocError::StorageExhausted { capacity: 1 },
        })
    );

    let hole = [ReservedRegion { start: 0x2000, end: 0x3000 }];
    assert_eq!(
        PhysicalAllocator::from_memory_map(map, &backing, &hole, vec![None; 2], vec![None; 4])
            .err(),
        Some(PhysAllocInitError::ReservationConflict {
            start: 0x2000,
            end: 0x3000,
            error: PhysAllocError::StorageExhausted { capacity: 2 },
        })
    );
}

#[test]
fn free_refuses_runs_that_are_no_runs() {
    let mut runs = FrameRunList::new(vec![None; 1]);
    assert!(runs.insert(PhysFrame::new(FRAME_SIZE, 0)).is_ok());
    assert_eq!(runs.len(), 0);
    assert_eq!(
        runs.insert(PhysFrame::new(FRAME_SIZE + 1, 1)).unwrap_err(),
        PhysAllocError::RangeMisaligned { start: FRAME_SIZE + 1, end: 2 * FRAME_SIZE + 1 }
    );
    assert_eq!(
        runs.insert(PhysFrame::new(u64::MAX - FRAME_SIZE + 1, 2)).unwrap_err(),
        PhysAllocError::RangeOverflow { start: u64::MAX - FRAME_SIZE + 1, end: u64::MAX }
    );
    runs.insert(PhysFrame::new(FRAME_SIZE, 1)).unwrap();
    assert_eq!(
        runs.insert(PhysFrame::new(FRAME_SIZE * 8, 1)).unwrap_err(),
        PhysAllocError::StorageExhausted { capacity: 1 }
    );
    assert_eq!(runs_of(&runs), vec![PhysFrame::new(FRAME_SIZE, 1)]);
    runs.insert(PhysFrame::new(FRAME_SIZE * 2, 1)).unwrap();
    assert_eq!(runs_of(&runs), vec![PhysFrame::new(FRAME_SIZE, 2)]);
}

#[test]
fn reserved_list_refuses_empty_regions_and_overflow() {
    let mut list = ReservedList::new(vec![None; 1]);
    assert_eq!(
        list.push(ReservedRegion { start: 8, end: 8 }).unwrap_err(),
        PhysAllocError::InvalidRegion { start: 8, end: 8 }
    );
    list.push(ReservedRegion { start: 8, end: 9 }).unwrap();
    assert_eq!(
        list.push(ReservedRegion { start: 10, end: 11 }).unwrap_err(),
        PhysAllocError::StorageExhausted { capacity: 1 }
    );
    assert_eq!(list.len(), 1);
    assert_eq!(list.capacity(), 1);
    assert_eq!(list.as_slice(), &[Some(ReservedRegion { start: 8, end: 9 })]);
}

#[test]
fn span_operations_give_exact_values() {
    let span = FrameSpan::new(0x2000, 0x6000).unwrap();
    assert_eq!(span.frame_count(), Ok(4));
    assert_eq!(span.into_frame(), Ok(PhysFrame::new(0x2000, 4)));
    let inner = FrameSpan::new(0x3000, 0x4000).unwrap();
    let (left, right) = span.subtract(&inner).unwrap();
    assert_eq!(left, Some(FrameSpan { start: 0x2000, end: 0x3000 }));
    assert_eq!(right, Some(FrameSpan { start: 0x4000, end: 0x6000 }));
    let apart = FrameSpan::new(0x6000, 0x7000).unwrap();
    assert!(!span.overlaps(&apart));
    assert!(span.touches(&apart));
    assert_eq!(span.subtract(&apart).unwrap(), (Some(span), None));
    assert_eq!(span.merge(apart), Ok(FrameSpan { start: 0x2000, end: 0x7000 }));
    assert_eq!(
        FrameSpan::new(0x2001, 0x3000).unwrap_err(),
        PhysAllocError::RangeMisaligned { start: 0x2001, end: 0x3000 }
    );
    assert_eq!(
        FrameSpan { start: 9, end: 3 }.frame_count().unwrap_err(),
        PhysAllocError::RangeOverflow { start: 9, end: 3 }
    );
}

#[test]
fn spans_off_frame_boundaries_are_refused_piece_by_piece() {
    let span = FrameSpan::new(0x2000, 0x6000).unwrap();
    let crooked = FrameSpan { start: 0x3001, end: 0x4000 };
    assert_eq!(
        span.subtract(&crooked),
        Err(PhysAllocError::RangeMisaligned { start: 0x2000, end: 0x3001 })
    );
    let crooked_end = FrameSpan { start: 0x2000, end: 0x4001 };
    assert_eq!(
        span.subtract(&crooked_end),
        Err(PhysAllocError::RangeMisaligned { start: 0x4001, end: 0x6000 })
    );
    assert_eq!(
        FrameSpan { start: 0x2000, end: 0x2001 }.into_frame(),
        Err(PhysAllocError::RangeMisaligned { start: 0x2000, end: 0x2001 })
    );
    assert_eq!(
        FrameSpan { start: 0x3000, end: 0x2000 }.into_frame(),
        Err(PhysAllocError::RangeOverflow { start: 0x3000, end: 0x2000 })
    );
    assert_eq!(
        FrameSpan { start: 0x2000, end: 0x2000 }.into_frame(),
        Ok(PhysFrame::new(0x2000, 0))
    );
}

#[test]
fn allocator_serves_the_page_table_builder() {
    let descriptors = vec![descriptor(EfiMemoryType::ConventionalMemory, 0x10000, 2)];
    let (map, backing) = build_map(descriptors);
    let mut allocator =
        PhysicalAllocator::from_memory_map(map, &backing, &[], vec![None; 2], vec![None; 1])
            .unwrap();
    assert_eq!(allocator.allocate_frame(), Some(0x10000));
    assert_eq!(allocator.allocate_frame(), Some(0x11000));
    assert_eq!(allocator.allocate_frame(), None);
}
