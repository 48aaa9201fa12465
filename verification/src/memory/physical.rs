//! The runtime allocator as the kernel holds it: free runs seeded from the
//! conventional memory of the firmware map, less every reserved region.

use vstd::prelude::*;
use crate::abi::{MemoryDescriptor, MemoryMap, CONVENTIONAL_MEMORY};
use crate::memory::allocator::{span_of_frame, FrameSpan, PhysFrame, ReservedRegion, StoragePlan};
use crate::memory::error::{PhysAllocError, PhysAllocInitError};
use crate::memory::free_list::{
    any_touching, covers, cut_from, first_fit, first_none, frames_free, free_bytes, inserted,
    is_first_fit, is_first_none, lemma_first_none, lemma_first_none_exists, lemma_frames_somewhere,
    lemma_frames_update, lemma_inserted_bytes, lemma_occupied_bound, lemma_occupied_update,
    lemma_room, lemma_subtracted_bytes, populated,
    removal_span, run_span, runs_disjoint, runs_valid, slot_holds, subtracted, FrameRunList,
    FreeRegionIter, ReservedList, ReservedRegionIter,
};
use crate::memory::map::{descriptors_of, MemoryMapIter, FRAME_SIZE};
use crate::memory::paging::FrameSource;

verus! {

/// Whether the descriptor describes memory that is free for the system:
/// conventional memory of at least one page.
pub open spec fn usable(d: MemoryDescriptor) -> bool {
    d.typ == CONVENTIONAL_MEMORY && d.number_of_pages > 0
}

/// The run that a descriptor describes.
pub open spec fn descriptor_frame(d: MemoryDescriptor) -> PhysFrame {
    PhysFrame { start: d.physical_start, count: d.number_of_pages }
}

/// The runs of the usable descriptors, in firmware order.
pub open spec fn usable_runs(descs: Seq<MemoryDescriptor>) -> Seq<PhysFrame>
    decreases descs.len(),
{
    if descs.len() == 0 {
        Seq::empty()
    } else if usable(descs.last()) {
        usable_runs(descs.drop_last()).push(descriptor_frame(descs.last()))
    } else {
        usable_runs(descs.drop_last())
    }
}

/// No two of the runs share a byte.
pub open spec fn runs_apart(runs: Seq<PhysFrame>) -> bool {
    forall|i: int, j: int|
        0 <= i < runs.len() && 0 <= j < runs.len() && i != j ==> (#[trigger] runs[i]).end()
            <= (#[trigger] runs[j]).start || runs[j].end() <= runs[i].start
}

/// Every region has `start < end`.
pub open spec fn regions_proper(regions: Seq<ReservedRegion>) -> bool {
    forall|k: int| 0 <= k < regions.len() ==> (#[trigger] regions[k]).start < regions[k].end
}

/// Number of usable descriptors.
pub open spec fn conventional_count(descs: Seq<MemoryDescriptor>) -> nat {
    usable_runs(descs).len()
}

/// Whether byte `a` lies in a usable descriptor.
pub open spec fn conventional_holds(descs: Seq<MemoryDescriptor>, a: int) -> bool {
    exists|i: int|
        0 <= i < descs.len() && usable(#[trigger] descs[i]) && descriptor_frame(descs[i]).holds(a)
}

/// The bytes of all usable descriptors.
pub open spec fn conventional_bytes(descs: Seq<MemoryDescriptor>) -> Set<int> {
    Set::new(|a: int| conventional_holds(descs, a))
}

/// Whether byte `a` lies in a reservation, widened to frame boundaries.
pub open spec fn reserved_holds(regions: Seq<ReservedRegion>, a: int) -> bool {
    exists|k: int|
        0 <= k < regions.len() && (#[trigger] regions[k]).start < regions[k].end && removal_span(
            regions[k].start,
            regions[k].end,
        ).holds(a)
}

/// The bytes of all reservations, each widened to frame boundaries.
pub open spec fn reserved_bytes(regions: Seq<ReservedRegion>) -> Set<int> {
    Set::new(|a: int| reserved_holds(regions, a))
}

/// What seeding a free list of `cap` slots from the descriptors comes to:
/// the number of runs stored, or the error of the first descriptor that is
/// usable and either describes no valid run or finds every slot taken.
pub open spec fn seed_outcome(descs: Seq<MemoryDescriptor>, cap: nat) -> Result<
    nat,
    PhysAllocInitError,
>
    decreases descs.len(),
{
    if descs.len() == 0 {
        Ok(0)
    } else {
        match seed_outcome(descs.drop_last(), cap) {
            Err(e) => Err(e),
            Ok(stored) => {
                let d = descs.last();
                let index = (descs.len() - 1) as usize;
                if !usable(d) {
                    Ok(stored)
                } else if !descriptor_frame(d).valid() {
                    Err(
                        PhysAllocInitError::InvalidDescriptor {
                            index,
                            error: span_of_frame(descriptor_frame(d))->Err_0,
                        },
                    )
                } else if stored >= cap {
                    Err(
                        PhysAllocInitError::InvalidDescriptor {
                            index,
                            error: PhysAllocError::StorageExhausted { capacity: cap as usize },
                        },
                    )
                } else {
                    Ok(stored + 1)
                }
            },
        }
    }
}

/// Seeding stores one run for each usable descriptor.
pub proof fn lemma_seed_count(descs: Seq<MemoryDescriptor>, cap: nat)
    ensures
        seed_outcome(descs, cap) matches Ok(stored) ==> stored == conventional_count(descs),
        seed_outcome(descs, cap) matches Err(e) ==> e is InvalidDescriptor,
    decreases descs.len(),
{
    if descs.len() > 0 {
        lemma_seed_count(descs.drop_last(), cap);
    }
}

/// The slot capacities that the allocator needs for a map with `conv`
/// usable descriptors and `resv` reservations: free slots for two splits
/// per reservation and for every usable descriptor; reserved slots for the
/// reservations and for as many more as there are usable descriptors, four
/// at least. Sums and products are capped at the largest `usize`.
pub open spec fn planned(conv: nat, resv: nat) -> StoragePlan {
    let boundaries = if 2 * (conv + resv) > usize::MAX {
        usize::MAX as nat
    } else {
        2 * (conv + resv)
    };
    let spare = if conv > 4 {
        conv
    } else {
        4
    };
    StoragePlan {
        free_slots: (if boundaries > conv {
            boundaries
        } else {
            conv
        }) as usize,
        reserved_slots: (if resv + spare > usize::MAX {
            usize::MAX as nat
        } else {
            resv + spare
        }) as usize,
    }
}

/// Computes the slot capacities for the map and the number of reservations
/// that are expected. A map without usable memory has no plan.
pub fn runtime_storage_plan(map: &MemoryMap, buffer: &[u8], reservation_count: usize) -> (r: Result<
    StoragePlan,
    PhysAllocInitError,
>)
    ensures
        ({
            let conv = conventional_count(descriptors_of(*map, buffer@));
            if map.map_size == 0 || map.entry_count == 0 || conv == 0 {
                r == Err::<StoragePlan, _>(PhysAllocInitError::Empty)
            } else {
                r == Ok::<_, PhysAllocInitError>(planned(conv, reservation_count as nat))
            }
        }),
{
    if map.map_size == 0 || map.entry_count == 0 {
        return Err(PhysAllocInitError::Empty);
    }
    let mut iter = MemoryMapIter::new(map, buffer);
    let ghost descs = iter@;
    let total: usize = iter.remaining();
    let mut conventional_regions: usize = 0;
    let mut seen: usize = 0;
    while seen < total
        invariant
            iter.wf(),
            seen <= total,
            total == descs.len(),
            iter@ == descs.skip(seen as int),
            conventional_regions == conventional_count(descs.take(seen as int)),
            conventional_regions <= seen,
        decreases total - seen,
    {
        let next = iter.next();
        proof {
            assert(descs.take(seen as int + 1).drop_last() =~= descs.take(seen as int));
            assert(descs.take(seen as int + 1).last() == descs[seen as int]);
            assert(descs.skip(seen as int).skip(1) =~= descs.skip(seen as int + 1));
        }
        if let Some(descriptor) = next {
            if descriptor.typ == CONVENTIONAL_MEMORY && descriptor.number_of_pages > 0 {
                conventional_regions = conventional_regions + 1;
            }
        }
        seen = seen + 1;
    }
    proof {
        assert(descs.take(total as int) =~= descs);
    }
    if conventional_regions == 0 {
        return Err(PhysAllocInitError::Empty);
    }
    let boundary_count: usize = match conventional_regions.saturating_add(
        reservation_count,
    ).checked_mul(2) {
        Some(doubled) => doubled,
        None => usize::MAX,
    };
    let free_slots: usize = if boundary_count > conventional_regions {
        boundary_count
    } else {
        conventional_regions
    };
    let spare: usize = if conventional_regions > 4 {
        conventional_regions
    } else {
        4
    };
    let reserved_slots: usize = reservation_count.saturating_add(spare);
    Ok(StoragePlan { free_slots, reserved_slots })
}

/// Tags a failure with the index of the descriptor that caused it.
pub fn descriptor_error(index: usize, error: PhysAllocError) -> (r: PhysAllocInitError)
    ensures
        r == (PhysAllocInitError::InvalidDescriptor { index, error }),
{
    PhysAllocInitError::InvalidDescriptor { index, error }
}

/// Tags a failure with the reservation that caused it.
pub fn reservation_error(region: ReservedRegion, error: PhysAllocError) -> (r: PhysAllocInitError)
    ensures
        r == (PhysAllocInitError::ReservationConflict {
            start: region.start,
            end: region.end,
            error,
        }),
{
    PhysAllocInitError::ReservationConflict { start: region.start, end: region.end, error }
}

/// The kernel's physical frame allocator.
pub struct PhysicalAllocator {
    map: MemoryMap,
    free: FrameRunList,
    reserved: ReservedList,
}

impl PhysicalAllocator {
    /// The slots of the free list, in storage order.
    pub closed spec fn free_slots(&self) -> Seq<Option<PhysFrame>> {
        self.free@
    }

    /// The slots of the reserved list, in storage order.
    pub closed spec fn reserved_slots(&self) -> Seq<Option<ReservedRegion>> {
        self.reserved@
    }

    /// The map record that the allocator was built from.
    pub closed spec fn source_map(&self) -> MemoryMap {
        self.map
    }

    /// Both lists are well formed.
    pub closed spec fn wf(&self) -> bool {
        self.free.wf() && self.reserved.wf()
    }

    /// The bytes that are free.
    pub open spec fn free_bytes(&self) -> Set<int> {
        free_bytes(self.free_slots())
    }

    /// In a well-formed allocator every free run is valid and every
    /// reserved region has `start < end`.
    pub proof fn lemma_wf(&self)
        requires
            self.wf(),
        ensures
            runs_valid(self.free_slots()),
            forall|i: int|
                0 <= i < self.reserved_slots().len() ==> match #[trigger] self.reserved_slots()[i] {
                    Some(region) => region.start < region.end,
                    None => true,
                },
    {
    }

    /// Builds the allocator. Each usable descriptor of the map becomes a
    /// free run, in firmware order; then each reservation, in the order
    /// given, is recorded and its bytes, widened to frame boundaries, are
    /// cut out of the free runs.
    pub fn from_memory_map(
        map: MemoryMap,
        buffer: &[u8],
        reservations: &[ReservedRegion],
        free_storage: Vec<Option<PhysFrame>>,
        reserved_storage: Vec<Option<ReservedRegion>>,
    ) -> (r: Result<Self, PhysAllocInitError>)
        ensures
            ({
                let descs = descriptors_of(map, buffer@);
                let seed = seed_outcome(descs, free_storage@.len());
                &&& match construction(
                    map,
                    descs,
                    reservations@,
                    free_storage@.len(),
                    reserved_storage@.len(),
                ) {
                    Err(e) => r == Err::<Self, _>(e),
                    Ok(slots) => r is Ok && r->Ok_0.free_slots() == slots,
                }
                &&& r matches Err(PhysAllocInitError::Empty) ==> map.map_size == 0
                    || map.entry_count == 0 || conventional_count(descs) == 0
                &&& r matches Err(PhysAllocInitError::InvalidDescriptor { .. }) ==> seed is Err
                &&& r matches Err(PhysAllocInitError::ReservationConflict { start, end, error })
                    ==> reservation_fault(
                    reservations@,
                    free_storage@.len(),
                    reserved_storage@.len(),
                    start,
                    end,
                    error,
                )
                &&& reservations@.len() == 0 && map.map_size != 0 && map.entry_count != 0 && (
                seed matches Ok(stored) && stored > 0) ==> r is Ok
                &&& map.map_size != 0 && map.entry_count != 0 && (seed matches Ok(stored) && stored
                    > 0 && stored + reservations@.len() <= free_storage@.len()) && runs_apart(
                    usable_runs(descs),
                ) && regions_proper(reservations@) && reservations@.len()
                    <= reserved_storage@.len() ==> r is Ok
                &&& r is Ok && runs_apart(usable_runs(descs)) ==> runs_disjoint(
                    r->Ok_0.free_slots(),
                )
                &&& r matches Ok(a) ==> {
                    &&& a.wf()
                    &&& a.source_map() == map
                    &&& a.free_slots().len() == free_storage@.len()
                    &&& a.reserved_slots().len() == reserved_storage@.len()
                    &&& recorded(reservations@, a.reserved_slots())
                    &&& a.free_bytes() == conventional_bytes(descs).difference(
                        reserved_bytes(reservations@),
                    )
                }
            }),
    {
        if map.map_size == 0 || map.entry_count == 0 {
            return Err(PhysAllocInitError::Empty);
        }
        let ghost descs = descriptors_of(map, buffer@);
        let ghost cap = free_storage@.len();
        proof {
            lemma_seed_count(descs, cap);
        }
        let mut free = match seed_free_list(&map, buffer, free_storage) {
            Err(e) => {
                return Err(e);
            },
            Ok(free) => free,
        };
        proof {
            lemma_seed_count(descs, cap);
        }
        if free.len() == 0 {
            return Err(PhysAllocInitError::Empty);
        }
        let ghost seeded = free@;
        proof {
            assert(seeded =~= seeded_slots(descs, cap));
        }
        let reserved = match apply_reservations(&mut free, reservations, reserved_storage) {
            Err(e) => {
                return Err(e);
            },
            Ok(reserved) => reserved,
        };
        proof {
            assert(free_bytes(free@) =~= conventional_bytes(descs).difference(
                reserved_bytes(reservations@),
            ));
        }
        Ok(PhysicalAllocator { map, free, reserved })
    }

    /// Allocates one frame.
    pub fn allocate(&mut self) -> (r: Result<PhysFrame, PhysAllocError>)
        requires
            old(self).wf(),
        ensures
            final(self).wf(),
            final(self).reserved_slots() == old(self).reserved_slots(),
            final(self).source_map() == old(self).source_map(),
            allocated(old(self).free_slots(), 1, final(self).free_slots(), r),
            runs_disjoint(old(self).free_slots()) ==> runs_disjoint(final(self).free_slots()),
    {
        assert(1u64 << 0u8 == 1) by (bit_vector);
        self.allocate_order(0)
    }

    /// Allocates `2^order` contiguous frames from the start of the first
    /// free run, in slot order, that is long enough. An order of 64 or more
    /// names no frame count and is refused.
    pub fn allocate_order(&mut self, order: u8) -> (r: Result<PhysFrame, PhysAllocError>)
        requires
            old(self).wf(),
        ensures
            final(self).wf(),
            final(self).reserved_slots() == old(self).reserved_slots(),
            final(self).source_map() == old(self).source_map(),
            order >= 64 ==> r == Err::<PhysFrame, _>(
                PhysAllocError::UnsupportedFrameCount { frames: 0 },
            ) && final(self).free_slots() == old(self).free_slots(),
            order < 64 ==> allocated(
                old(self).free_slots(),
                order_frames(order),
                final(self).free_slots(),
                r,
            ),
            runs_disjoint(old(self).free_slots()) ==> runs_disjoint(final(self).free_slots()),
    {
        if order >= 64 {
            return Err(PhysAllocError::UnsupportedFrameCount { frames: 0 });
        }
        assert(1u64 << order >= 1) by (bit_vector)
            requires
                order < 64,
        ;
        let frames: u64 = 1u64 << order;
        let ghost before = self.free@;
        let taken = self.free.allocate_count(frames);
        proof {
            let outcome: Result<PhysFrame, PhysAllocError> = match taken {
                Err(e) => Err(e),
                Ok(Some(frame)) => Ok(frame),
                Ok(None) => Err(PhysAllocError::OutOfMemory),
            };
            lemma_allocated_bytes(before, frames, self.free@, outcome);
        }
        match taken {
            Err(e) => Err(e),
            Ok(Some(frame)) => Ok(frame),
            Ok(None) => Err(PhysAllocError::OutOfMemory),
        }
    }

    /// Gives a run of frames back. It is merged with every free run that it
    /// shares a byte or a boundary with. An empty run changes nothing.
    pub fn free(&mut self, frame: PhysFrame) -> (r: Result<(), PhysAllocError>)
        requires
            old(self).wf(),
        ensures
            final(self).wf(),
            final(self).reserved_slots() == old(self).reserved_slots(),
            final(self).source_map() == old(self).source_map(),
            final(self).free_slots().len() == old(self).free_slots().len(),
            runs_disjoint(old(self).free_slots()) ==> runs_disjoint(final(self).free_slots()),
            frame.count == 0 ==> r is Ok && final(self).free_slots() == old(self).free_slots(),
            frame.count != 0 && !frame.valid() ==> r is Err && Err::<FrameSpan, _>(r->Err_0)
                == span_of_frame(frame) && final(self).free_slots() == old(self).free_slots(),
            frame.valid()
                ==> (r is Err
                <==> first_none(old(self).free_slots()) >= old(self).free_slots().len()
                && !any_touching(old(self).free_slots(), run_span(frame))),
            frame.valid() && r is Err ==> r == Err::<(), _>(
                PhysAllocError::StorageExhausted {
                    capacity: old(self).free_slots().len() as usize,
                },
            ) && final(self).free_slots() == old(self).free_slots(),
            frame.valid() && r is Ok ==> inserted(
                old(self).free_slots(),
                frame,
                final(self).free_slots(),
            ) && final(self).free_bytes() == old(self).free_bytes().union(
                Set::new(|a: int| frame.holds(a)),
            ),
    {
        if frame.count == 0 {
            return Ok(());
        }
        self.free.insert(frame)
    }

    /// Reserves a region after the allocator was built: the region is
    /// recorded, then its bytes, widened to frame boundaries, are cut out of
    /// the free runs. A region that cannot be recorded changes nothing.
    pub fn reserve(&mut self, region: ReservedRegion) -> (r: Result<(), PhysAllocError>)
        requires
            old(self).wf(),
        ensures
            final(self).wf(),
            final(self).source_map() == old(self).source_map(),
            final(self).free_slots().len() == old(self).free_slots().len(),
            final(self).reserved_slots().len() == old(self).reserved_slots().len(),
            runs_disjoint(old(self).free_slots()) ==> runs_disjoint(final(self).free_slots()),
            region.start >= region.end ==> r == Err::<(), _>(
                PhysAllocError::InvalidRegion { start: region.start, end: region.end },
            ),
            region.start < region.end
                && first_none(old(self).reserved_slots()) >= old(self).reserved_slots().len()
                ==> r == Err::<(), _>(
                PhysAllocError::StorageExhausted {
                    capacity: old(self).reserved_slots().len() as usize,
                },
            ),
            region.start >= region.end
                || first_none(old(self).reserved_slots()) >= old(self).reserved_slots().len()
                ==> final(self).free_slots() == old(self).free_slots()
                && final(self).reserved_slots() == old(self).reserved_slots(),
            region.start < region.end
                && first_none(old(self).reserved_slots()) < old(self).reserved_slots().len() ==> {
                &&& final(self).reserved_slots() == old(self).reserved_slots().update(
                    first_none(old(self).reserved_slots()),
                    Some(region),
                )
                &&& removal_span(region.start, region.end).valid() ==> subtracted(
                    old(self).free_slots(),
                    removal_span(region.start, region.end),
                    final(self).free_slots(),
                    r is Ok,
                ) && final(self).free_slots() == cut_from(
                    old(self).free_slots(),
                    removal_span(region.start, region.end),
                    0,
                ).0 && (r is Ok) == cut_from(
                    old(self).free_slots(),
                    removal_span(region.start, region.end),
                    0,
                ).1
                &&& !removal_span(region.start, region.end).valid()
                    ==> r is Ok && final(self).free_slots() == old(self).free_slots()
                &&& r is Err ==> r == Err::<(), _>(
                    PhysAllocError::StorageExhausted {
                        capacity: old(self).free_slots().len() as usize,
                    },
                )
                &&& r is Ok ==> final(self).free_bytes() == old(self).free_bytes().difference(
                    Set::new(|a: int| removal_span(region.start, region.end).holds(a)),
                )
                &&& r is Ok ==> forall|a: int|
                    region.start <= a < region.end ==> !#[trigger] covers(
                        final(self).free_slots(),
                        a,
                    )
            },
    {
        match self.reserved.push(region) {
            Err(e) => {
                return Err(e);
            },
            Ok(_) => {},
        }
        let ghost before = self.free@;
        let outcome = self.free.subtract_range(region.start, region.end);
        proof {
            if removal_span(region.start, region.end).valid() {
                lemma_subtracted_bytes(
                    before,
                    removal_span(region.start, region.end),
                    self.free@,
                    outcome is Ok,
                );
            }
        }
        outcome
    }

    /// A walk over the free runs, in slot order.
    pub fn free_regions(&self) -> (r: FreeRegionIter<'_>)
        ensures
            r.wf(),
            r@ == populated(self.free_slots()),
    {
        self.free.iter()
    }

    /// A walk over the reserved regions, in slot order.
    pub fn reserved_regions(&self) -> (r: ReservedRegionIter<'_>)
        ensures
            r.wf(),
            r@ == populated(self.reserved_slots()),
    {
        self.reserved.iter()
    }
}

impl FrameSource for PhysicalAllocator {
    open spec fn ready(&self) -> bool {
        self.wf()
    }

    open spec fn remaining(&self) -> Set<int> {
        self.free_bytes()
    }

    open spec fn available(&self) -> Option<nat> {
        Some(frames_free(self.free_slots()))
    }

    /// One frame from the free runs, by its address: the first frame of the
    /// first run, in slot order.
    fn allocate_frame(&mut self) -> (r: Option<u64>)
        ensures
            final(self).reserved_slots() == old(self).reserved_slots(),
            final(self).source_map() == old(self).source_map(),
            allocated(
                old(self).free_slots(),
                1,
                final(self).free_slots(),
                match r {
                    Some(start) => Ok(PhysFrame { start, count: 1 }),
                    None => Err(PhysAllocError::OutOfMemory),
                },
            ),
    {
        let ghost before = self.free_slots();
        proof {
            self.lemma_wf();
            lemma_first_fit_exists(before, 1);
        }
        let outcome = self.allocate();
        proof {
            lemma_allocated_bytes(before, 1, self.free_slots(), outcome);
            lemma_allocated_frames(before, self.free_slots(), outcome);
        }
        match outcome {
            Ok(frame) => Some(frame.start),
            Err(_) => None,
        }
    }
}

/// Allocating one frame succeeds where a frame is free, and leaves one
/// frame less.
pub proof fn lemma_allocated_frames(
    old: Seq<Option<PhysFrame>>,
    new: Seq<Option<PhysFrame>>,
    r: Result<PhysFrame, PhysAllocError>,
)
    requires
        allocated(old, 1, new, r),
    ensures
        r is Ok <==> frames_free(old) > 0,
        r is Ok ==> frames_free(new) + 1 == frames_free(old),
        r is Err ==> new == old,
{
    lemma_first_fit_exists(old, 1);
    let idx = first_fit(old, 1);
    if idx < old.len() {
        lemma_frames_update(old, idx, new[idx]);
    } else if frames_free(old) > 0 {
        lemma_frames_somewhere(old);
    }
}

/// Allocation frees no byte, and the run that it hands out was free.
pub proof fn lemma_allocated_bytes(
    old: Seq<Option<PhysFrame>>,
    frames: u64,
    new: Seq<Option<PhysFrame>>,
    r: Result<PhysFrame, PhysAllocError>,
)
    requires
        runs_valid(old),
        frames >= 1,
        allocated(old, frames, new, r),
    ensures
        free_bytes(new).subset_of(free_bytes(old)),
        r matches Ok(frame) ==> frame.valid() && forall|a: int|
            frame.holds(a) ==> #[trigger] covers(old, a),
        runs_disjoint(old) ==> runs_disjoint(new),
        runs_valid(new),
{
    lemma_first_fit_exists(old, frames);
    let idx = first_fit(old, frames);
    if idx < old.len() {
        let run = old[idx]->Some_0;
        assert(run.valid());
        assert forall|a: int| covers(new, a) implies covers(old, a) by {
            let i = choose|i: int| 0 <= i < new.len() && slot_holds(#[trigger] new[i], a);
            if i != idx {
                assert(new[i] == old[i]);
                assert(slot_holds(old[i], a));
            } else {
                assert(slot_holds(old[idx], a));
            }
        }
        let frame = r->Ok_0;
        assert forall|a: int| frame.holds(a) implies #[trigger] covers(old, a) by {
            assert(slot_holds(old[idx], a));
        }
        assert forall|i: int| 0 <= i < new.len() implies match #[trigger] new[i] {
            Some(q) => q.valid(),
            None => true,
        } by {
            if i != idx {
                assert(new[i] == old[i]);
            }
        }
        if runs_disjoint(old) {
            assert forall|i: int, j: int|
                0 <= i < new.len() && 0 <= j < new.len() && i != j implies match (
                    #[trigger] new[i],
                    #[trigger] new[j],
                ) {
                    (Some(p), Some(q)) => p.end() <= q.start || q.end() <= p.start,
                    _ => true,
                } by {
                if new[i] is Some && new[j] is Some {
                    if i != idx {
                        assert(new[i] == old[i]);
                    }
                    if j != idx {
                        assert(new[j] == old[j]);
                    }
                    assert(old[i] is Some && old[j] is Some);
                }
            }
        }
    }
}

/// The number of frames that an order below 64 asks for.
pub open spec fn order_frames(order: u8) -> u64 {
    1u64 << order
}

/// What allocating `frames` frames, one at least, does to the free slots
/// `old`: the first run that is long enough gives up its first `frames`
/// frames, and leaves its slot if it has no more. With no such run nothing
/// changes and the answer is `OutOfMemory`.
pub open spec fn allocated(
    old: Seq<Option<PhysFrame>>,
    frames: u64,
    new: Seq<Option<PhysFrame>>,
    r: Result<PhysFrame, PhysAllocError>,
) -> bool {
    let idx = first_fit(old, frames);
    if idx >= old.len() {
        r == Err::<PhysFrame, _>(PhysAllocError::OutOfMemory) && new == old
    } else {
        let run = old[idx]->Some_0;
        &&& r == Ok::<_, PhysAllocError>(PhysFrame { start: run.start, count: frames })
        &&& new == old.update(
            idx,
            if run.count == frames {
                None
            } else {
                Some(
                    PhysFrame {
                        start: (run.start + frames * FRAME_SIZE) as u64,
                        count: (run.count - frames) as u64,
                    },
                )
            },
        )
    }
}

/// Round trip: a run that was just allocated can always be given back, and
/// giving it back leaves free exactly the bytes that were free before the
/// allocation.
pub proof fn lemma_allocate_free_round_trip(
    before: Seq<Option<PhysFrame>>,
    frames: u64,
    between: Seq<Option<PhysFrame>>,
    frame: PhysFrame,
    after: Seq<Option<PhysFrame>>,
)
    requires
        runs_valid(before),
        frames >= 1,
        allocated(before, frames, between, Ok(frame)),
    ensures
        frame.valid(),
        runs_valid(between),
        first_none(between) < between.len() || any_touching(between, run_span(frame)),
        inserted(between, frame, after) ==> free_bytes(after) == free_bytes(before),
{
    lemma_first_fit_exists(before, frames);
    let idx = first_fit(before, frames);
    let run = before[idx]->Some_0;
    assert(run.valid());
    assert(frame.valid());
    assert forall|i: int| 0 <= i < between.len() implies match #[trigger] between[i] {
        Some(r) => r.valid(),
        None => true,
    } by {
        if i != idx {
            assert(between[i] == before[i]);
        }
    }
    lemma_first_none_exists(between);
    if run.count == frames {
        if first_none(between) >= between.len() {
            assert(between[idx] is Some);
        }
    } else {
        assert(between[idx] is Some);
        assert(run_span(frame).spec_touches(run_span(between[idx]->Some_0)));
    }
    if inserted(between, frame, after) {
        lemma_inserted_bytes(between, frame, after);
        assert forall|a: int| covers(before, a) <==> covers(between, a) || frame.holds(a) by {
            if covers(before, a) {
                let i = choose|i: int| 0 <= i < before.len() && slot_holds(#[trigger] before[i], a);
                if i != idx {
                    assert(between[i] == before[i]);
                    assert(slot_holds(between[i], a));
                } else if !frame.holds(a) {
                    assert(slot_holds(between[idx], a));
                }
            }
            if covers(between, a) {
                let i = choose|i: int|
                    0 <= i < between.len() && slot_holds(#[trigger] between[i], a);
                if i != idx {
                    assert(between[i] == before[i]);
                    assert(slot_holds(before[i], a));
                } else {
                    assert(slot_holds(before[idx], a));
                }
            }
            if frame.holds(a) {
                assert(slot_holds(before[idx], a));
            }
        }
        assert(free_bytes(after) =~= free_bytes(before));
    }
}

/// Some index is the first fit.
pub proof fn lemma_first_fit_exists(s: Seq<Option<PhysFrame>>, frames: u64)
    ensures
        is_first_fit(s, frames, first_fit(s, frames)),
{
    lemma_first_fit_from(s, frames, 0);
}

proof fn lemma_first_fit_from(s: Seq<Option<PhysFrame>>, frames: u64, k: int)
    requires
        0 <= k <= s.len(),
        forall|j: int|
            0 <= j < k ==> match #[trigger] s[j] {
                Some(r) => r.count < frames,
                None => true,
            },
    ensures
        exists|i: int| is_first_fit(s, frames, i),
    decreases s.len() - k,
{
    if k == s.len() {
        assert(is_first_fit(s, frames, k));
    } else if s[k] is Some && s[k]->Some_0.count >= frames {
        assert(is_first_fit(s, frames, k));
    } else {
        lemma_first_fit_from(s, frames, k + 1);
    }
}

/// The first `regions.len()` slots hold the regions in order, and the other
/// slots are empty.
pub open spec fn recorded(
    regions: Seq<ReservedRegion>,
    slots: Seq<Option<ReservedRegion>>,
) -> bool {
    &&& regions.len() <= slots.len()
    &&& forall|k: int|
        0 <= k < slots.len() ==> #[trigger] slots[k] == if k < regions.len() {
            Some(regions[k])
        } else {
            None
        }
}

/// The failure `error` is one that the reservation `[start, end)` of
/// `regions` can cause: the region is empty or inverted, or one of the two
/// lists has no slot left.
pub open spec fn reservation_fault(
    regions: Seq<ReservedRegion>,
    free_capacity: nat,
    reserved_capacity: nat,
    start: u64,
    end: u64,
    error: PhysAllocError,
) -> bool {
    exists|k: int|
        #![trigger regions[k]]
        {
            &&& 0 <= k < regions.len()
            &&& regions[k].start == start
            &&& regions[k].end == end
            &&& if start >= end {
                error == (PhysAllocError::InvalidRegion { start, end })
            } else {
                error matches PhysAllocError::StorageExhausted { capacity } && (capacity
                    == reserved_capacity || capacity == free_capacity)
            }
        }
}

/// Stores a run for each usable descriptor of the map, in firmware order,
/// in a list over `storage`.
#[verifier::loop_isolation(false)]
pub fn seed_free_list(
    map: &MemoryMap,
    buffer: &[u8],
    storage: Vec<Option<PhysFrame>>,
) -> (r: Result<
    FrameRunList,
    PhysAllocInitError,
>)
    ensures
        ({
            let descs = descriptors_of(*map, buffer@);
            match seed_outcome(descs, storage@.len()) {
                Err(e) => r == Err::<FrameRunList, _>(e),
                Ok(stored) => {
                    &&& r is Ok
                    &&& r->Ok_0.wf()
                    &&& r->Ok_0@.len() == storage@.len()
                    &&& r->Ok_0.spec_len() == stored
                    &&& forall|j: int|
                        0 <= j < storage@.len() ==> #[trigger] r->Ok_0@[j] == if j < stored {
                            Some(usable_runs(descs)[j])
                        } else {
                            None
                        }
                    &&& forall|a: int| #[trigger]
                        covers(r->Ok_0@, a) <==> conventional_holds(descs, a)
                    &&& runs_apart(usable_runs(descs)) ==> runs_disjoint(r->Ok_0@)
                },
            }
        }),
{
    let ghost cap = storage@.len();
    let mut free = FrameRunList::new(storage);
    let mut iter = MemoryMapIter::new(map, buffer);
    let ghost descs = iter@;
    let total: usize = iter.remaining();
    let mut index: usize = 0;
    while index < total
        invariant
            iter.wf(),
            free.wf(),
            index <= total,
            total == descs.len(),
            cap == free@.len(),
            iter@ == descs.skip(index as int),
            seed_outcome(descs.take(index as int), cap) == Ok::<nat, PhysAllocInitError>(
                free.spec_len(),
            ),
            free.spec_len() == usable_runs(descs.take(index as int)).len(),
            forall|j: int|
                0 <= j < free@.len() ==> #[trigger] free@[j] == if j < free.spec_len() {
                    Some(usable_runs(descs.take(index as int))[j])
                } else {
                    None
                },
            forall|a: int| #[trigger]
                covers(free@, a) <==> conventional_holds(descs.take(index as int), a),
        decreases total - index,
    {
        let next = iter.next();
        let ghost before = free@;
        let ghost stored = free.spec_len();
        let ghost prefix = descs.take(index as int);
        let ghost wider = descs.take(index as int + 1);
        proof {
            assert(wider.drop_last() =~= prefix);
            assert(wider.last() == descs[index as int]);
            assert(descs.skip(index as int).skip(1) =~= descs.skip(index as int + 1));
            lemma_conventional_step(prefix, wider);
        }
        if let Some(descriptor) = next {
            if descriptor.typ == CONVENTIONAL_MEMORY && descriptor.number_of_pages != 0 {
                let frame = PhysFrame::new(descriptor.physical_start, descriptor.number_of_pages);
                match FrameSpan::from_frame(frame) {
                    Err(err) => {
                        proof {
                            lemma_seed_prefix(descs, index as int + 1, cap);
                        }
                        return Err(descriptor_error(index, err));
                    },
                    Ok(_) => {},
                }
                proof {
                    if stored < cap {
                        assert(is_first_none(before, stored as int));
                        lemma_first_none(before, stored as int);
                    } else {
                        assert(is_first_none(before, cap as int));
                        lemma_first_none(before, cap as int);
                    }
                }
                match free.push(frame) {
                    Err(err) => {
                        proof {
                            lemma_seed_prefix(descs, index as int + 1, cap);
                        }
                        return Err(descriptor_error(index, err));
                    },
                    Ok(_) => {},
                }
                proof {
                    let slot = stored as int;
                    lemma_occupied_update(before, slot, Some(frame));
                    assert forall|a: int| #[trigger]
                        covers(free@, a) <==> conventional_holds(wider, a) by {
                        if covers(free@, a) {
                            let i = choose|i: int|
                                0 <= i < free@.len() && slot_holds(#[trigger] free@[i], a);
                            if i != slot {
                                assert(slot_holds(before[i], a));
                                assert(covers(before, a));
                            }
                        }
                        if conventional_holds(prefix, a) {
                            assert(covers(before, a));
                            let i = choose|i: int|
                                0 <= i < before.len() && slot_holds(#[trigger] before[i], a);
                            assert(slot_holds(free@[i], a));
                        }
                        if frame.holds(a) {
                            assert(slot_holds(free@[slot], a));
                        }
                    }
                }
            }
        }
        index = index + 1;
    }
    proof {
        assert(descs.take(total as int) =~= descs);
        if runs_apart(usable_runs(descs)) {
            let runs = usable_runs(descs);
            assert forall|i: int, j: int|
                0 <= i < free@.len() && 0 <= j < free@.len() && i != j implies match (
                    #[trigger] free@[i],
                    #[trigger] free@[j],
                ) {
                    (Some(p), Some(q)) => p.end() <= q.start || q.end() <= p.start,
                    _ => true,
                } by {
                if free@[i] is Some && free@[j] is Some {
                    assert(free@[i] == Some(runs[i]) && free@[j] == Some(runs[j]));
                }
            }
        }
    }
    Ok(free)
}

/// What reserving the regions, one after another, comes to on the free
/// slots `free`, once `recorded` regions stand in a reserved list of
/// `capacity` slots: the free slots as they are left, and the first failure.
/// A region is refused if it is empty or inverted, or if it finds no slot in
/// the reserved list; and cutting it out of the free runs fails if a piece
/// finds no slot.
pub open spec fn reservations_cut(
    free: Seq<Option<PhysFrame>>,
    regions: Seq<ReservedRegion>,
    recorded: nat,
    capacity: nat,
) -> (Seq<Option<PhysFrame>>, Option<PhysAllocInitError>)
    decreases regions.len(),
{
    if regions.len() == 0 {
        (free, None)
    } else {
        let region = regions[0];
        let removal = removal_span(region.start, region.end);
        let (cut, fits) = if removal.valid() {
            cut_from(free, removal, 0)
        } else {
            (free, true)
        };
        if region.start >= region.end {
            (
                free,
                Some(
                    PhysAllocInitError::ReservationConflict {
                        start: region.start,
                        end: region.end,
                        error: PhysAllocError::InvalidRegion {
                            start: region.start,
                            end: region.end,
                        },
                    },
                ),
            )
        } else if recorded >= capacity {
            (
                free,
                Some(
                    PhysAllocInitError::ReservationConflict {
                        start: region.start,
                        end: region.end,
                        error: PhysAllocError::StorageExhausted { capacity: capacity as usize },
                    },
                ),
            )
        } else if !fits {
            (
                cut,
                Some(
                    PhysAllocInitError::ReservationConflict {
                        start: region.start,
                        end: region.end,
                        error: PhysAllocError::StorageExhausted { capacity: free.len() as usize },
                    },
                ),
            )
        } else {
            reservations_cut(cut, regions.skip(1), recorded + 1, capacity)
        }
    }
}

/// The free slots once each usable descriptor has its run: the runs in
/// firmware order from the first slot on, and the other slots empty.
pub open spec fn seeded_slots(descs: Seq<MemoryDescriptor>, capacity: nat) -> Seq<
    Option<PhysFrame>,
> {
    Seq::new(
        capacity,
        |j: int|
            if j < usable_runs(descs).len() {
                Some(usable_runs(descs)[j])
            } else {
                None
            },
    )
}

/// What building the allocator comes to, for slot lists of `free_cap` and
/// `reserved_cap` slots: the free slots of the allocator, or the failure. A
/// map without descriptors or without usable memory gives `Empty`; else the
/// first descriptor that cannot be stored gives its error; else the free
/// slots are seeded and the reservations cut out of them.
pub open spec fn construction(
    map: MemoryMap,
    descs: Seq<MemoryDescriptor>,
    reservations: Seq<ReservedRegion>,
    free_cap: nat,
    reserved_cap: nat,
) -> Result<Seq<Option<PhysFrame>>, PhysAllocInitError> {
    if map.map_size == 0 || map.entry_count == 0 {
        Err(PhysAllocInitError::Empty)
    } else {
        match seed_outcome(descs, free_cap) {
            Err(e) => Err(e),
            Ok(stored) => if stored == 0 {
                Err(PhysAllocInitError::Empty)
            } else {
                let (cut, failure) = reservations_cut(
                    seeded_slots(descs, free_cap),
                    reservations,
                    0,
                    reserved_cap,
                );
                match failure {
                    Some(e) => Err(e),
                    None => Ok(cut),
                }
            },
        }
    }
}

/// Records each reservation, in the order given, in a list over `storage`,
/// and cuts its bytes, widened to frame boundaries, out of the free runs.
#[verifier::loop_isolation(false)]
pub fn apply_reservations(
    free: &mut FrameRunList,
    reservations: &[ReservedRegion],
    storage: Vec<Option<ReservedRegion>>,
) -> (r: Result<ReservedList, PhysAllocInitError>)
    requires
        old(free).wf(),
    ensures
        final(free).wf(),
        final(free)@.len() == old(free)@.len(),
        final(free)@ == reservations_cut(old(free)@, reservations@, 0, storage@.len()).0,
        match reservations_cut(old(free)@, reservations@, 0, storage@.len()).1 {
            None => r is Ok,
            Some(e) => r == Err::<ReservedList, _>(e),
        },
        forall|a: int| #[trigger] covers(final(free)@, a) ==> covers(old(free)@, a),
        reservations@.len() == 0 ==> r is Ok,
        runs_disjoint(old(free)@) ==> runs_disjoint(final(free)@),
        runs_disjoint(old(free)@) && regions_proper(reservations@) && reservations@.len()
            <= storage@.len() && old(free).spec_len() + reservations@.len() <= old(free)@.len()
            ==> r is Ok,
        r matches Ok(reserved) ==> {
            &&& reserved.wf()
            &&& reserved@.len() == storage@.len()
            &&& recorded(reservations@, reserved@)
            &&& forall|a: int| #[trigger]
                covers(final(free)@, a) <==> covers(old(free)@, a) && !reserved_holds(
                    reservations@,
                    a,
                )
        },
        r matches Err(e) ==> e matches PhysAllocInitError::ReservationConflict {
            start,
            end,
            error,
        } && reservation_fault(
            reservations@,
            old(free)@.len(),
            storage@.len(),
            start,
            end,
            error,
        ),
{
    let ghost seeded = free@;
    let free_capacity: usize = free.capacity();
    let reserved_capacity: usize = storage.len();
    let mut reserved = ReservedList::new(storage);
    let count: usize = reservations.len();
    let mut done: usize = 0;
    proof {
        assert(reservations@.skip(0) =~= reservations@);
    }
    while done < count
        invariant
            free.wf(),
            reserved.wf(),
            done <= count,
            count == reservations@.len(),
            seeded.len() == free@.len(),
            free_capacity == seeded.len(),
            reserved@.len() == storage@.len(),
            reserved.spec_len() == done,
            reservations_cut(free@, reservations@.skip(done as int), done as nat, storage@.len())
                == reservations_cut(seeded, reservations@, 0, storage@.len()),
            runs_disjoint(seeded)
                ==> runs_disjoint(free@) && free.spec_len() <= old(free).spec_len() + done,
            forall|k: int|
                0 <= k < reserved@.len() ==> #[trigger] reserved@[k] == if k < done {
                    Some(reservations@[k])
                } else {
                    None
                },
            forall|a: int| #[trigger]
                covers(free@, a) <==> covers(seeded, a) && !reserved_holds(
                    reservations@.take(done as int),
                    a,
                ),
        decreases count - done,
    {
        let region: ReservedRegion = reservations[done];
        let ghost slots = reserved@;
        let ghost before = free@;
        proof {
            assert(reservations@.skip(done as int)[0] == region);
            assert(reservations@.skip(done as int).skip(1) =~= reservations@.skip(done as int + 1));
        }
        let ghost earlier = reservations@.take(done as int);
        let ghost wider = reservations@.take(done as int + 1);
        proof {
            if done < slots.len() {
                assert(is_first_none(slots, done as int));
                lemma_first_none(slots, done as int);
            } else {
                assert(is_first_none(slots, slots.len() as int));
                lemma_first_none(slots, slots.len() as int);
            }
            assert(reservations@[done as int] == region);
        }
        match reserved.push(region) {
            Err(err) => {
                return Err(reservation_error(region, err));
            },
            Ok(_) => {},
        }
        proof {
            lemma_occupied_update(slots, done as int, Some(region));
        }
        proof {
            lemma_room(before);
        }
        let outcome = free.subtract_range(region.start, region.end);
        proof {
            if region.start < region.end && removal_span(region.start, region.end).valid() {
                lemma_subtracted_bytes(
                    before,
                    removal_span(region.start, region.end),
                    free@,
                    outcome is Ok,
                );
            }
        }
        match outcome {
            Err(err) => {
                return Err(reservation_error(region, err));
            },
            Ok(_) => {},
        }
        proof {
            let removal = removal_span(region.start, region.end);
            assert(wider.drop_last() =~= earlier);
            assert(wider.last() == region);
            lemma_reserved_step(earlier, wider);
            assert forall|a: int| #[trigger]
                covers(free@, a) <==> covers(before, a) && !removal.holds(a) by {
                assert(free_bytes(free@).contains(a) <==> free_bytes(before).contains(a)
                    && !Set::new(|a: int| removal.holds(a)).contains(a));
            }
        }
        done = done + 1;
    }
    proof {
        assert(reservations@.take(count as int) =~= reservations@);
        lemma_occupied_bound(reserved@);
    }
    Ok(reserved)
}

/// The bytes of a list of reservations that is longer by one.
proof fn lemma_reserved_step(earlier: Seq<ReservedRegion>, wider: Seq<ReservedRegion>)
    requires
        wider.len() > 0,
        wider.drop_last() == earlier,
    ensures
        forall|a: int| #[trigger]
            reserved_holds(wider, a) <==> reserved_holds(earlier, a) || (wider.last().start
                < wider.last().end && removal_span(wider.last().start, wider.last().end).holds(a)),
{
    assert forall|a: int| #[trigger]
        reserved_holds(wider, a) <==> reserved_holds(earlier, a) || (wider.last().start
            < wider.last().end && removal_span(wider.last().start, wider.last().end).holds(
            a,
        )) by {
        if reserved_holds(wider, a) {
            let k = choose|k: int|
                0 <= k < wider.len() && (#[trigger] wider[k]).start < wider[k].end && removal_span(
                    wider[k].start,
                    wider[k].end,
                ).holds(a);
            if k < earlier.len() {
                assert(earlier[k] == wider[k]);
            }
        }
        if reserved_holds(earlier, a) {
            let k = choose|k: int|
                0 <= k < earlier.len() && (#[trigger] earlier[k]).start < earlier[k].end
                    && removal_span(earlier[k].start, earlier[k].end).holds(a);
            assert(wider[k] == earlier[k]);
        }
        if wider.last().start < wider.last().end && removal_span(
            wider.last().start,
            wider.last().end,
        ).holds(a) {
            assert(wider[wider.len() - 1] == wider.last());
        }
    }
}

/// A seeding that fails on a prefix of the descriptors fails on all of them
/// in the same way.
proof fn lemma_seed_prefix(descs: Seq<MemoryDescriptor>, k: int, cap: nat)
    requires
        0 <= k <= descs.len(),
        seed_outcome(descs.take(k), cap) is Err,
    ensures
        seed_outcome(descs, cap) == seed_outcome(descs.take(k), cap),
    decreases descs.len() - k,
{
    if k == descs.len() {
        assert(descs.take(k) =~= descs);
    } else {
        assert(descs.take(k + 1).drop_last() =~= descs.take(k));
        lemma_seed_prefix(descs, k + 1, cap);
    }
}

/// The bytes of a list of descriptors that is longer by one.
proof fn lemma_conventional_step(prefix: Seq<MemoryDescriptor>, wider: Seq<MemoryDescriptor>)
    requires
        wider.len() > 0,
        wider.drop_last() == prefix,
    ensures
        forall|a: int| #[trigger]
            conventional_holds(wider, a) <==> conventional_holds(prefix, a) || (usable(wider.last())
                && descriptor_frame(wider.last()).holds(a)),
{
    assert forall|a: int| #[trigger]
        conventional_holds(wider, a) <==> conventional_holds(prefix, a) || (usable(wider.last())
            && descriptor_frame(wider.last()).holds(a)) by {
        if conventional_holds(wider, a) {
            let i = choose|i: int|
                0 <= i < wider.len() && usable(#[trigger] wider[i]) && descriptor_frame(
                    wider[i],
                ).holds(a);
            if i < prefix.len() {
                assert(prefix[i] == wider[i]);
            }
        }
        if conventional_holds(prefix, a) {
            let i = choose|i: int|
                0 <= i < prefix.len() && usable(#[trigger] prefix[i]) && descriptor_frame(
                    prefix[i],
                ).holds(a);
            assert(wider[i] == prefix[i]);
        }
        if usable(wider.last()) && descriptor_frame(wider.last()).holds(a) {
            assert(wider[wider.len() - 1] == wider.last());
        }
    }
}

} // verus!
