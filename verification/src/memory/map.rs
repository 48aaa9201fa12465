//! A read-only view of the firmware memory map: a byte buffer that holds one
//! descriptor every `entry_size` bytes.

use vstd::prelude::*;
use crate::abi::{MemoryDescriptor, MemoryMap};

verus! {

/// Size of a physical memory frame in bytes (4 KiB).
pub const FRAME_SIZE: u64 = 4096;

/// Bytes read of each descriptor.
pub const DESCRIPTOR_BYTES: usize = 40;

/// The little-endian number in the four bytes of `s` from `at`.
pub open spec fn le_u32(s: Seq<u8>, at: int) -> int {
    s[at] + s[at + 1] * 0x100 + s[at + 2] * 0x1_0000 + s[at + 3] * 0x100_0000
}

/// The little-endian number in the eight bytes of `s` from `at`.
pub open spec fn le_u64(s: Seq<u8>, at: int) -> int {
    le_u32(s, at) + le_u32(s, at + 4) * 0x1_0000_0000
}

/// The descriptor whose bytes start at `at`: type, padding, physical start,
/// virtual start, page count, attributes.
pub open spec fn decode_descriptor(s: Seq<u8>, at: int) -> MemoryDescriptor {
    MemoryDescriptor {
        typ: le_u32(s, at) as u32,
        _pad: le_u32(s, at + 4) as u32,
        physical_start: le_u64(s, at + 8) as u64,
        virtual_start: le_u64(s, at + 16) as u64,
        number_of_pages: le_u64(s, at + 24) as u64,
        attribute: le_u64(s, at + 32) as u64,
    }
}

/// How many of the `entry_count` announced descriptors lie wholly inside a
/// buffer of `len` bytes.
pub open spec fn descriptor_count(len: nat, entry_size: nat, entry_count: nat) -> nat {
    if len < DESCRIPTOR_BYTES {
        0
    } else if entry_size == 0 {
        entry_count
    } else {
        let fit = ((len - DESCRIPTOR_BYTES) / (entry_size as int) + 1) as nat;
        if entry_count < fit {
            entry_count
        } else {
            fit
        }
    }
}

/// The descriptors of a map, in firmware order.
pub open spec fn map_descriptors(s: Seq<u8>, entry_size: nat, entry_count: nat) -> Seq<
    MemoryDescriptor,
> {
    Seq::new(
        descriptor_count(s.len(), entry_size, entry_count),
        |i: int| decode_descriptor(s, i * entry_size),
    )
}

/// The descriptors that a map record announces over a buffer.
pub open spec fn descriptors_of(map: MemoryMap, s: Seq<u8>) -> Seq<MemoryDescriptor> {
    map_descriptors(s, map.entry_size as nat, map.entry_count as nat)
}

/// The byte range `[start, start + pages * 4096)` of a descriptor, where it
/// fits in 64 bits.
pub open spec fn descriptor_span(d: MemoryDescriptor) -> Option<(u64, u64)> {
    if d.physical_start + d.number_of_pages * FRAME_SIZE <= u64::MAX {
        Some((d.physical_start, (d.physical_start + d.number_of_pages * FRAME_SIZE) as u64))
    } else {
        None
    }
}

/// Whether `addr` lies in the byte range of `d`.
pub open spec fn descriptor_contains(d: MemoryDescriptor, addr: u64) -> bool {
    match descriptor_span(d) {
        Some((start, end)) => start <= addr < end,
        None => false,
    }
}

/// The descriptor `i` lies wholly inside the buffer.
proof fn lemma_descriptor_fits(len: nat, entry_size: nat, entry_count: nat, i: int)
    requires
        0 <= i < descriptor_count(len, entry_size, entry_count),
    ensures
        i * entry_size + DESCRIPTOR_BYTES <= len,
        i < entry_count,
{
    if entry_size == 0 {
        assert(i * entry_size == 0) by (nonlinear_arith)
            requires
                entry_size == 0,
        ;
    } else {
        let q = (len - DESCRIPTOR_BYTES) / (entry_size as int);
        assert(q * entry_size <= len - DESCRIPTOR_BYTES) by (nonlinear_arith)
            requires
                q == (len - DESCRIPTOR_BYTES) / (entry_size as int),
                entry_size > 0,
                len >= DESCRIPTOR_BYTES,
        ;
        assert(i * entry_size <= q * entry_size) by (nonlinear_arith)
            requires
                0 <= i <= q,
                entry_size > 0,
        ;
    }
}

fn read_le_u32(buffer: &[u8], at: usize) -> (r: u32)
    requires
        at + 4 <= buffer@.len(),
    ensures
        r == le_u32(buffer@, at as int),
{
    let b0: u32 = buffer[at] as u32;
    let b1: u32 = buffer[at + 1] as u32;
    let b2: u32 = buffer[at + 2] as u32;
    let b3: u32 = buffer[at + 3] as u32;
    b0 + b1 * 0x100 + b2 * 0x1_0000 + b3 * 0x100_0000
}

fn read_le_u64(buffer: &[u8], at: usize) -> (r: u64)
    requires
        at + 8 <= buffer@.len(),
    ensures
        r == le_u64(buffer@, at as int),
{
    let len: usize = buffer.len();
    assert(at + 8 <= len);
    let low: u64 = read_le_u32(buffer, at) as u64;
    let high: u64 = read_le_u32(buffer, at + 4) as u64;
    low + high * 0x1_0000_0000
}

/// Reads the descriptor whose bytes start at `at`.
pub fn read_descriptor(buffer: &[u8], at: usize) -> (r: MemoryDescriptor)
    requires
        at + DESCRIPTOR_BYTES <= buffer@.len(),
    ensures
        r == decode_descriptor(buffer@, at as int),
{
    let len: usize = buffer.len();
    assert(at + DESCRIPTOR_BYTES <= len);
    MemoryDescriptor {
        typ: read_le_u32(buffer, at),
        _pad: read_le_u32(buffer, at + 4),
        physical_start: read_le_u64(buffer, at + 8),
        virtual_start: read_le_u64(buffer, at + 16),
        number_of_pages: read_le_u64(buffer, at + 24),
        attribute: read_le_u64(buffer, at + 32),
    }
}

/// Cursor over the descriptors of a memory map. It borrows the buffer and
/// copies nothing but the descriptor it hands out.
pub struct MemoryMapIter<'a> {
    buffer: &'a [u8],
    entry_size: usize,
    remaining: usize,
    offset: usize,
}

impl<'a> MemoryMapIter<'a> {
    /// Every descriptor still to come lies inside the buffer.
    pub closed spec fn wf(&self) -> bool {
        self.remaining > 0 ==> self.offset + (self.remaining - 1) * self.entry_size
            + DESCRIPTOR_BYTES <= self.buffer@.len()
    }

    /// The descriptors still to come, in order.
    pub closed spec fn view(&self) -> Seq<MemoryDescriptor> {
        Seq::new(
            self.remaining as nat,
            |j: int| decode_descriptor(self.buffer@, self.offset + j * self.entry_size),
        )
    }

    /// A cursor at the first descriptor of `map`, read from `buffer`. Of the
    /// descriptors that the record announces, those that do not lie inside
    /// the buffer are left out.
    pub fn new(map: &MemoryMap, buffer: &'a [u8]) -> (r: Self)
        ensures
            r.wf(),
            r@ == descriptors_of(*map, buffer@),
    {
        let len: usize = buffer.len();
        let entry_size: usize = map.entry_size as usize;
        let announced: usize = map.entry_count as usize;
        let remaining: usize = if len < DESCRIPTOR_BYTES {
            0
        } else if entry_size == 0 {
            announced
        } else {
            let fit: usize = (len - DESCRIPTOR_BYTES) / entry_size + 1;
            if announced < fit {
                announced
            } else {
                fit
            }
        };
        let r = MemoryMapIter { buffer, entry_size, remaining, offset: 0 };
        proof {
            assert(remaining == descriptor_count(len as nat, entry_size as nat, announced as nat));
            if remaining > 0 {
                lemma_descriptor_fits(
                    len as nat,
                    entry_size as nat,
                    announced as nat,
                    remaining - 1,
                );
            }
            assert(r@ =~= descriptors_of(*map, buffer@));
        }
        r
    }

    /// Number of descriptors still to come.
    pub fn remaining(&self) -> (r: usize)
        ensures
            r == self@.len(),
    {
        self.remaining
    }

    /// Hands out the next descriptor, or `None` when the map is exhausted.
    pub fn next(&mut self) -> (r: Option<MemoryDescriptor>)
        requires
            old(self).wf(),
        ensures
            final(self).wf(),
            old(self)@.len() == 0 ==> r is None && final(self)@ == old(self)@,
            old(self)@.len() > 0 ==> r == Some(old(self)@[0]) && final(self)@ == old(self)@.skip(1),
    {
        if self.remaining == 0 {
            return None;
        }
        let len: usize = self.buffer.len();
        proof {
            assert((self.remaining - 1) * self.entry_size >= 0) by (nonlinear_arith)
                requires
                    self.remaining >= 1,
                    self.entry_size >= 0,
            ;
        }
        let desc = read_descriptor(self.buffer, self.offset);
        let ghost before = *self;
        if self.remaining > 1 {
            proof {
                assert((self.remaining - 1) * self.entry_size >= self.entry_size)
                    by (nonlinear_arith)
                    requires
                        self.remaining >= 2,
                        self.entry_size >= 0,
                ;
                assert((self.remaining - 1) * self.entry_size == (self.remaining - 2)
                    * self.entry_size + self.entry_size) by (nonlinear_arith);
            }
            self.offset = self.offset + self.entry_size;
        }
        self.remaining = self.remaining - 1;
        proof {
            assert forall|j: int| 0 <= j < self.remaining implies #[trigger] self@[j]
                == before@.skip(1)[j] by {
                assert(self.offset + j * self.entry_size == before.offset + (j + 1)
                    * before.entry_size) by (nonlinear_arith)
                    requires
                        self.offset == before.offset + before.entry_size,
                        self.entry_size == before.entry_size,
                ;
            }
            assert(self@ =~= before@.skip(1));
            assert(before.offset + 0 * before.entry_size == before.offset);
        }
        Some(desc)
    }
}

/// The half-open byte range that a descriptor covers, or `None` where its
/// end does not fit in 64 bits.
pub fn descriptor_range(desc: &MemoryDescriptor) -> (r: Option<(u64, u64)>)
    ensures
        r == descriptor_span(*desc),
{
    match desc.number_of_pages.checked_mul(FRAME_SIZE) {
        None => None,
        Some(len) => match desc.physical_start.checked_add(len) {
            None => None,
            Some(end) => Some((desc.physical_start, end)),
        },
    }
}

/// The first descriptor of `descs`, from index `from` on, whose byte range
/// holds `addr`.
pub open spec fn first_containing(descs: Seq<MemoryDescriptor>, addr: u64) -> Option<
    MemoryDescriptor,
>
    decreases descs.len(),
{
    if descs.len() == 0 {
        None
    } else if descriptor_contains(descs[0], addr) {
        Some(descs[0])
    } else {
        first_containing(descs.skip(1), addr)
    }
}

/// What `first_containing` finds holds the address, and nothing before it does.
pub proof fn lemma_first_containing(descs: Seq<MemoryDescriptor>, addr: u64)
    ensures
        match first_containing(descs, addr) {
            Some(d) => exists|i: int|
                0 <= i < descs.len() && descs[i] == d && descriptor_contains(d, addr) && forall|
                    j: int,
                |
                    0 <= j < i ==> !descriptor_contains(#[trigger] descs[j], addr),
            None => forall|j: int|
                0 <= j < descs.len() ==> !descriptor_contains(#[trigger] descs[j], addr),
        },
    decreases descs.len(),
{
    if descs.len() == 0 {
    } else if descriptor_contains(descs[0], addr) {
        assert(descs[0] == descs[0]);
    } else {
        let rest = descs.skip(1);
        lemma_first_containing(rest, addr);
        match first_containing(rest, addr) {
            Some(d) => {
                let i = choose|i: int|
                    0 <= i < rest.len() && rest[i] == d && descriptor_contains(d, addr) && forall|
                        j: int,
                    |
                        0 <= j < i ==> !descriptor_contains(#[trigger] rest[j], addr);
                assert(descs[i + 1] == d);
                assert forall|j: int| 0 <= j < i + 1 implies !descriptor_contains(
                    #[trigger] descs[j],
                    addr,
                ) by {
                    if j > 0 {
                        assert(descs[j] == rest[j - 1]);
                    }
                }
            },
            None => {
                assert forall|j: int| 0 <= j < descs.len() implies !descriptor_contains(
                    #[trigger] descs[j],
                    addr,
                ) by {
                    if j > 0 {
                        assert(descs[j] == rest[j - 1]);
                    }
                }
            },
        }
    }
}

/// Finds the descriptor that covers `addr`. The map is scanned in firmware
/// order and the first match wins.
pub fn find_descriptor_containing(map: &MemoryMap, buffer: &[u8], addr: u64) -> (r: Option<
    MemoryDescriptor,
>)
    ensures
        r == first_containing(descriptors_of(*map, buffer@), addr),
{
    let mut iter = MemoryMapIter::new(map, buffer);
    loop
        invariant
            iter.wf(),
            first_containing(iter@, addr) == first_containing(descriptors_of(*map, buffer@), addr),
        decreases iter@.len(),
    {
        match iter.next() {
            None => {
                return None;
            },
            Some(desc) => {
                if let Some((start, end)) = descriptor_range(&desc) {
                    if addr >= start && addr < end {
                        return Some(desc);
                    }
                }
            },
        }
    }
}

} // verus!
