//! The runtime physical frame allocator: free runs of contiguous frames kept
//! in caller-provided slots, with coalescing insertion, first-fit
//! allocation by power-of-two order, and reservations that carve the free
//! list.

use vstd::prelude::*;

use crate::memory::error::PhysAllocError;
use crate::memory::map::FRAME_SIZE;

verus! {

/// The largest frame-aligned address.
pub const LAST_FRAME: u64 = 0xffff_ffff_ffff_f000;

/// A run of `count` contiguous 4 KiB frames from `start`.
#[derive(Clone, Copy, Debug, PartialEq, Eq, Structural)]
pub struct PhysFrame {
    pub start: u64,
    pub count: u64,
}

impl PhysFrame {
    pub fn new(start: u64, count: u64) -> (r: Self)
        ensures
            r == (PhysFrame { start, count }),
    {
        PhysFrame { start, count }
    }

    /// The first byte past the run.
    pub open spec fn end(self) -> int {
        self.start + self.count * FRAME_SIZE
    }

    /// A run is valid when it starts on a frame boundary, holds at least one
    /// frame, and ends within 64 bits.
    pub open spec fn valid(self) -> bool {
        &&& self.start % FRAME_SIZE == 0
        &&& self.count >= 1
        &&& self.end() <= u64::MAX
    }

    /// Whether byte `a` lies in the run.
    pub open spec fn holds(self, a: int) -> bool {
        self.start <= a < self.end()
    }
}

/// A half-open byte interval `[start, end)` that must not be handed out.
#[derive(Clone, Copy, Debug, PartialEq, Eq, Structural)]
pub struct ReservedRegion {
    pub start: u64,
    pub end: u64,
}

/// Slot counts that the allocator's two lists need.
#[derive(Clone, Copy, Debug, PartialEq, Eq, Structural)]
pub struct StoragePlan {
    pub free_slots: usize,
    pub reserved_slots: usize,
}

impl StoragePlan {
    /// Slots of both lists together, capped at the largest `usize`.
    pub fn total_slots(&self) -> (r: usize)
        ensures
            r == if self.free_slots + self.reserved_slots > usize::MAX {
                usize::MAX as int
            } else {
                self.free_slots + self.reserved_slots
            },
    {
        self.free_slots.saturating_add(self.reserved_slots)
    }
}

/// Rounds down to a frame boundary.
pub open spec fn frame_floor(value: int) -> int {
    value - value % (FRAME_SIZE as int)
}

/// Rounds up to a frame boundary, in unbounded arithmetic.
pub open spec fn frame_ceil(value: int) -> int {
    frame_floor(value + FRAME_SIZE - 1)
}

/// Rounds `value` down to a frame boundary.
pub fn align_down(value: u64) -> (r: u64)
    ensures
        r == frame_floor(value as int),
        r % FRAME_SIZE == 0,
        r <= value < r + FRAME_SIZE,
{
    value - value % FRAME_SIZE
}

/// Rounds `value` up to a frame boundary; past the last boundary that fits
/// in 64 bits the result is that last boundary.
pub fn align_up(value: u64) -> (r: u64)
    ensures
        r == if frame_ceil(value as int) <= LAST_FRAME {
            frame_ceil(value as int)
        } else {
            LAST_FRAME as int
        },
        r % FRAME_SIZE == 0,
{
    match value.checked_add(FRAME_SIZE - 1) {
        Some(sum) => sum - sum % FRAME_SIZE,
        None => LAST_FRAME,
    }
}

/// `start + count * 4096`, where that fits in 64 bits.
pub fn span_end(start: u64, count: u64) -> (r: Option<u64>)
    ensures
        r == if start + count * FRAME_SIZE <= u64::MAX {
            Some((start + count * FRAME_SIZE) as u64)
        } else {
            None
        },
{
    match count.checked_mul(FRAME_SIZE) {
        None => None,
        Some(bytes) => start.checked_add(bytes),
    }
}

/// `a * b`, capped at the largest `u64`.
pub open spec fn capped_product(a: u64, b: u64) -> u64 {
    if a * b > u64::MAX {
        u64::MAX
    } else {
        (a * b) as u64
    }
}

/// `a + b`, capped at the largest `u64`.
pub open spec fn capped_sum(a: u64, b: u64) -> u64 {
    if a + b > u64::MAX {
        u64::MAX
    } else {
        (a + b) as u64
    }
}

fn saturating_product(a: u64, b: u64) -> (r: u64)
    ensures
        r == capped_product(a, b),
{
    match a.checked_mul(b) {
        Some(p) => p,
        None => u64::MAX,
    }
}

/// A frame-aligned, non-empty byte interval `[start, end)`.
#[derive(Clone, Copy, Debug, PartialEq, Eq, Structural)]
pub struct FrameSpan {
    pub start: u64,
    pub end: u64,
}

/// What `FrameSpan::new` makes of two bounds.
pub open spec fn span_of(start: u64, end: u64) -> Result<FrameSpan, PhysAllocError> {
    if start >= end || start % FRAME_SIZE != 0 || end % FRAME_SIZE != 0 {
        Err(PhysAllocError::RangeMisaligned { start, end })
    } else {
        Ok(FrameSpan { start, end })
    }
}

/// What `FrameSpan::from_frame` makes of a run.
pub open spec fn span_of_frame(frame: PhysFrame) -> Result<FrameSpan, PhysAllocError> {
    if frame.count == 0 {
        Err(PhysAllocError::RangeMisaligned { start: frame.start, end: frame.start })
    } else if frame.end() > u64::MAX {
        Err(
            PhysAllocError::RangeOverflow {
                start: frame.start,
                end: capped_sum(frame.start, capped_product(frame.count, FRAME_SIZE)),
            },
        )
    } else {
        span_of(frame.start, frame.end() as u64)
    }
}

/// What `FrameSpan::subtract` makes of a span and a removal: the pieces
/// on either side, or the refusal of the first piece, left before right,
/// whose bounds make no span.
pub open spec fn span_cut(span: FrameSpan, removal: FrameSpan) -> Result<
    (Option<FrameSpan>, Option<FrameSpan>),
    PhysAllocError,
> {
    if !span.spec_overlaps(removal) {
        Ok((Some(span), None))
    } else if span.start < removal.start && span_of(span.start, removal.start) is Err {
        Err(span_of(span.start, removal.start)->Err_0)
    } else if removal.end < span.end && span_of(removal.end, span.end) is Err {
        Err(span_of(removal.end, span.end)->Err_0)
    } else {
        Ok(span_pieces(span, removal))
    }
}

/// What is left of `span` on either side once `removal` is cut out.
pub open spec fn span_pieces(span: FrameSpan, removal: FrameSpan) -> (
    Option<FrameSpan>,
    Option<FrameSpan>,
) {
    if !span.spec_overlaps(removal) {
        (Some(span), None)
    } else {
        (
            if span.start < removal.start {
                Some(FrameSpan { start: span.start, end: removal.start })
            } else {
                None
            },
            if removal.end < span.end {
                Some(FrameSpan { start: removal.end, end: span.end })
            } else {
                None
            },
        )
    }
}

impl FrameSpan {
    /// The number of frames between the bounds, where the end does not lie
    /// before the start and the bytes between them make whole frames.
    pub open spec fn counted(self) -> Result<u64, PhysAllocError> {
        if self.end < self.start {
            Err(PhysAllocError::RangeOverflow { start: self.start, end: self.end })
        } else if (self.end - self.start) % (FRAME_SIZE as int) != 0 {
            Err(PhysAllocError::RangeMisaligned { start: self.start, end: self.end })
        } else {
            Ok(((self.end - self.start) / (FRAME_SIZE as int)) as u64)
        }
    }

    /// Non-empty with both bounds on frame boundaries.
    pub open spec fn valid(self) -> bool {
        &&& self.start < self.end
        &&& self.start % FRAME_SIZE == 0
        &&& self.end % FRAME_SIZE == 0
    }

    /// Whether byte `a` lies in the span.
    pub open spec fn holds(self, a: int) -> bool {
        self.start <= a < self.end
    }

    /// The two spans share a byte.
    pub open spec fn spec_overlaps(self, other: FrameSpan) -> bool {
        self.start < other.end && other.start < self.end
    }

    /// The two spans share a byte or a boundary.
    pub open spec fn spec_touches(self, other: FrameSpan) -> bool {
        self.start <= other.end && other.start <= self.end
    }

    /// The run that covers the same bytes as a valid span.
    pub open spec fn as_frame(self) -> PhysFrame {
        PhysFrame { start: self.start,
            count: ((self.end - self.start) / (FRAME_SIZE as int)) as u64 }
    }

    /// The smallest span that holds both.
    pub open spec fn hull(self, other: FrameSpan) -> FrameSpan {
        FrameSpan {
            start: if self.start <= other.start {
                self.start
            } else {
                other.start
            },
            end: if self.end >= other.end {
                self.end
            } else {
                other.end
            },
        }
    }

    /// A span from two bounds; refused unless `start < end` and both lie on
    /// frame boundaries.
    pub fn new(start: u64, end: u64) -> (r: Result<Self, PhysAllocError>)
        ensures
            r == span_of(start, end),
            r matches Ok(s) ==> s.valid(),
    {
        if start >= end {
            return Err(PhysAllocError::RangeMisaligned { start, end });
        }
        if start % FRAME_SIZE != 0 || end % FRAME_SIZE != 0 {
            return Err(PhysAllocError::RangeMisaligned { start, end });
        }
        Ok(FrameSpan { start, end })
    }

    /// The span of a run; refused for an empty run, for one whose end does
    /// not fit in 64 bits, and for one off the frame boundaries.
    pub fn from_frame(frame: PhysFrame) -> (r: Result<Self, PhysAllocError>)
        ensures
            r == span_of_frame(frame),
            r is Ok <==> frame.valid(),
            r matches Ok(s) ==> s.valid() && s.start == frame.start && s.end == frame.end()
                && s.as_frame() == frame,
    {
        if frame.count == 0 {
            return Err(PhysAllocError::RangeMisaligned { start: frame.start, end: frame.start });
        }
        match span_end(frame.start, frame.count) {
            None => Err(
                PhysAllocError::RangeOverflow {
                    start: frame.start,
                    end: frame.start.saturating_add(saturating_product(frame.count, FRAME_SIZE)),
                },
            ),
            Some(end) => Self::new(frame.start, end),
        }
    }

    /// The smallest span that holds both; two valid spans always have one.
    pub fn merge(self, other: Self) -> (r: Result<Self, PhysAllocError>)
        ensures
            r == span_of(self.hull(other).start, self.hull(other).end),
            self.valid() && other.valid() ==> r == Ok::<_, PhysAllocError>(self.hull(other)),
    {
        let start: u64 = if self.start <= other.start {
            self.start
        } else {
            other.start
        };
        let end: u64 = if self.end >= other.end {
            self.end
        } else {
            other.end
        };
        Self::new(start, end)
    }

    /// Whether the two spans share a byte.
    pub fn overlaps(&self, other: &Self) -> (r: bool)
        ensures
            r == self.spec_overlaps(*other),
    {
        self.start < other.end && other.start < self.end
    }

    /// Whether the two spans share a byte or a boundary.
    pub fn touches(&self, other: &Self) -> (r: bool)
        ensures
            r == self.spec_touches(*other),
    {
        self.start <= other.end && other.start <= self.end
    }

    /// Number of frames in the span.
    pub fn frame_count(&self) -> (r: Result<u64, PhysAllocError>)
        ensures
            r == self.counted(),
            self.valid() ==> r == Ok::<u64, PhysAllocError>(self.as_frame().count),
    {
        match self.end.checked_sub(self.start) {
            None => Err(PhysAllocError::RangeOverflow { start: self.start, end: self.end }),
            Some(span) => {
                if span % FRAME_SIZE != 0 {
                    Err(PhysAllocError::RangeMisaligned { start: self.start, end: self.end })
                } else {
                    Ok(span / FRAME_SIZE)
                }
            },
        }
    }

    /// The run that covers the span.
    pub fn into_frame(self) -> (r: Result<PhysFrame, PhysAllocError>)
        ensures
            r == match self.counted() {
                Err(e) => Err::<PhysFrame, _>(e),
                Ok(count) => Ok::<_, PhysAllocError>(PhysFrame { start: self.start, count }),
            },
            self.valid()
                ==> r == Ok::<_, PhysAllocError>(self.as_frame()) && self.as_frame().valid()
                && self.as_frame().end() == self.end,
    {
        match self.frame_count() {
            Err(e) => Err(e),
            Ok(count) => Ok(PhysFrame::new(self.start, count)),
        }
    }

    /// Cuts `removal` out of the span: the piece to its left and the piece
    /// to its right, each where it is not empty. A span that `removal` does
    /// not overlap comes back whole as the left piece.
    pub fn subtract(self, removal: &Self) -> (r: Result<
        (Option<Self>, Option<Self>),
        PhysAllocError,
    >)
        ensures
            r == span_cut(self, *removal),
            self.valid() && removal.valid() ==> r == Ok::<_, PhysAllocError>(
                span_pieces(self, *removal),
            ),
    {
        if !self.overlaps(removal) {
            return Ok((Some(self), None));
        }
        let removal_start: u64 = if self.start >= removal.start {
            self.start
        } else {
            removal.start
        };
        let removal_end: u64 = if self.end <= removal.end {
            self.end
        } else {
            removal.end
        };
        let left = if self.start < removal_start {
            match Self::new(self.start, removal_start) {
                Err(e) => {
                    return Err(e);
                },
                Ok(s) => Some(s),
            }
        } else {
            None
        };
        let right = if removal_end < self.end {
            match Self::new(removal_end, self.end) {
                Err(e) => {
                    return Err(e);
                },
                Ok(s) => Some(s),
            }
        } else {
            None
        };
        Ok((left, right))
    }
}

} // verus!
