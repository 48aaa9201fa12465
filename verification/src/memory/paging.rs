//! Identity-mapped page tables built from 2 MiB pages. The tables are built
//! as plain values; writing them to their frames and switching the
//! processor over to them is left to the caller.

use vstd::prelude::*;
use crate::abi::Framebuffer;
use crate::memory::error::PagingError;

verus! {

/// 4 KiB page size.
pub const PAGE_SIZE: u64 = 4096;

/// 2 MiB huge page size.
pub const HUGE_PAGE_SIZE: u64 = 0x20_0000;

/// Entries of one table.
pub const ENTRIES: usize = 512;

/// 2 MiB regions below the limit of what the tables can map.
pub const REGIONS: usize = 0x4_0000;

/// The first address that the tables cannot map: only the first entry of
/// the top-level table is used, and it spans 512 GiB.
pub const MAPPING_LIMIT: u64 = 0x80_0000_0000;

pub const PTE_PRESENT: u64 = 0x1;

pub const PTE_WRITABLE: u64 = 0x2;

/// Page size: at the directory level, the entry maps 2 MiB.
pub const PTE_PS: u64 = 0x80;

pub const ADDR_MASK_4K: u64 = 0x000f_ffff_ffff_f000;

pub const ADDR_MASK_2M: u64 = 0x000f_ffff_ffe0_0000;

/// What the page-table builder needs from a frame source: one 4 KiB frame
/// at a time. This is the trait to implement for a frame source of one's
/// own; `Unchecked` makes such a source a `FrameSource`.
pub trait PhysFrameAlloc {
    /// Hands out the address of one frame, or `None` when the source is
    /// exhausted.
    fn allocate_frame(&mut self) -> Option<u64>;
}

/// A frame source of which nothing is known but that it is a
/// `PhysFrameAlloc`.
pub struct Unchecked<A: PhysFrameAlloc>(pub A);

impl<A: PhysFrameAlloc> FrameSource for Unchecked<A> {
    open spec fn ready(&self) -> bool {
        true
    }

    open spec fn remaining(&self) -> Set<int> {
        Set::new(|a: int| true)
    }

    open spec fn available(&self) -> Option<nat> {
        None
    }

    fn allocate_frame(&mut self) -> (r: Option<u64>) {
        self.0.allocate_frame()
    }
}

/// A frame source as the page-table builder reasons about it: what it
/// needs to hold between calls, and what it may still hand out.
pub trait FrameSource {
    /// What the source needs to hold between calls.
    spec fn ready(&self) -> bool;

    /// The addresses that the source may still hand out, or bytes of the
    /// frames at these addresses.
    spec fn remaining(&self) -> Set<int>;

    /// The number of frames that the source will hand out yet, where that
    /// is known.
    spec fn available(&self) -> Option<nat>;

    /// Hands out the address of one frame, or `None` when the source is
    /// exhausted. A source never gains addresses, and hands out none but
    /// those it had. A source that knows how many frames it has hands one
    /// out while it has one, and has one less after that.
    fn allocate_frame(&mut self) -> (r: Option<u64>)
        requires
            old(self).ready(),
        ensures
            final(self).ready(),
            final(self).remaining().subset_of(old(self).remaining()),
            r matches Some(frame) ==> old(self).remaining().contains(frame as int),
            old(self).available() matches Some(n) ==> {
                &&& r is Some <==> n > 0
                &&& final(self).available() == Some(
                    if n > 0 {
                        (n - 1) as nat
                    } else {
                        0nat
                    },
                )
            },
    ;
}

/// The entry that points to the table in the frame at `phys`: present and
/// writable.
pub open spec fn table_entry(phys: u64) -> u64 {
    (phys & ADDR_MASK_4K) | PTE_PRESENT | PTE_WRITABLE
}

/// The entry that maps the 2 MiB page at `addr` onto itself: present,
/// writable, page size.
pub open spec fn huge_entry(addr: u64) -> u64 {
    (addr & ADDR_MASK_2M) | PTE_PRESENT | PTE_WRITABLE | PTE_PS
}

/// Whether an entry has the present bit.
pub open spec fn entry_present(entry: u64) -> bool {
    entry & PTE_PRESENT != 0
}

/// The entry that maps the 2 MiB region `region` onto itself.
pub open spec fn identity_entry(region: int) -> u64 {
    huge_entry((region * HUGE_PAGE_SIZE) as u64)
}

/// Rounds down to a multiple of 2 MiB.
pub open spec fn huge_floor(addr: int) -> int {
    addr - addr % (HUGE_PAGE_SIZE as int)
}

/// Index of the 2 MiB region that holds `addr`.
pub open spec fn region_of(addr: int) -> int {
    addr / (HUGE_PAGE_SIZE as int)
}

/// Whether the 2 MiB region `region` shares a byte with `[start, end)`.
pub open spec fn region_in(region: int, start: u64, end: u64) -> bool {
    start < end && region_of(start as int) <= region <= region_of(end - 1)
}

/// A table entry is present; an entry for a huge page is present, writable
/// and marked as a huge page, and keeps the address of a page below the
/// mapping limit.
pub proof fn lemma_entry_bits(phys: u64, addr: u64)
    ensures
        entry_present(table_entry(phys)),
        table_entry(phys) & ADDR_MASK_4K == phys & ADDR_MASK_4K,
        huge_entry(addr) & (PTE_PRESENT | PTE_WRITABLE | PTE_PS) == PTE_PRESENT | PTE_WRITABLE
            | PTE_PS,
        huge_entry(addr) != 0,
        addr % HUGE_PAGE_SIZE == 0 && addr < MAPPING_LIMIT ==> huge_entry(addr) & ADDR_MASK_2M
            == addr && huge_entry(addr) == addr + 0x83,
{
    assert(((phys & 0x000f_ffff_ffff_f000u64) | 1 | 2) & 1 != 0) by (bit_vector);
    assert(((phys & 0x000f_ffff_ffff_f000u64) | 1 | 2) & 0x000f_ffff_ffff_f000u64 == phys
        & 0x000f_ffff_ffff_f000u64) by (bit_vector);
    assert(((addr & 0x000f_ffff_ffe0_0000u64) | 1 | 2 | 0x80) & (1u64 | 2 | 0x80) == 1u64 | 2
        | 0x80) by (bit_vector);
    assert(((addr & 0x000f_ffff_ffe0_0000u64) | 1 | 2 | 0x80) != 0) by (bit_vector);
    if addr % HUGE_PAGE_SIZE == 0 && addr < MAPPING_LIMIT {
        assert(((addr & 0x000f_ffff_ffe0_0000u64) | 1 | 2 | 0x80) & 0x000f_ffff_ffe0_0000u64
            == addr) by (bit_vector)
            requires
                addr % 0x20_0000 == 0,
                addr < 0x80_0000_0000,
        ;
        assert(((addr & 0x000f_ffff_ffe0_0000u64) | 1 | 2 | 0x80) == addr + 0x83) by (bit_vector)
            requires
                addr % 0x20_0000 == 0,
                addr < 0x80_0000_0000,
        ;
    }
}

/// Rounds `addr` down to a multiple of `align`, a power of two.
pub fn align_down(addr: u64, align: u64) -> (r: u64)
    requires
        align > 0,
    ensures
        r == addr & !((align - 1) as u64),
{
    addr & !(align - 1)
}

/// Rounds `addr` up to a multiple of `align`, a power of two, where the
/// sum `addr + align - 1` fits in 64 bits.
pub fn align_up(addr: u64, align: u64) -> (r: u64)
    requires
        align > 0,
        addr + (align - 1) <= u64::MAX,
    ensures
        r == ((addr + (align - 1)) as u64) & !((align - 1) as u64),
{
    (addr + (align - 1)) & !(align - 1)
}

/// A table of `n` zero entries.
fn zeroed(n: usize) -> (r: Vec<u64>)
    ensures
        r@.len() == n,
        forall|i: int| 0 <= i < n ==> #[trigger] r@[i] == 0,
{
    let mut table: Vec<u64> = Vec::new();
    let mut i: usize = 0;
    while i < n
        invariant
            i <= n,
            table@.len() == i,
            forall|j: int| 0 <= j < i ==> #[trigger] table@[j] == 0,
        decreases n - i,
    {
        table.push(0);
        i = i + 1;
    }
    table
}

/// A hierarchy of page tables that maps 2 MiB pages onto themselves: the
/// top-level table, the one table below it that its first entry points to,
/// and the page directories below that, one for each GiB that is mapped.
pub struct PageTables {
    pml4_phys: u64,
    pdpt_phys: u64,
    pml4: Vec<u64>,
    pdpt: Vec<u64>,
    directories: Vec<u64>,
}

impl PageTables {
    /// The entries of the top-level table.
    pub closed spec fn pml4_view(&self) -> Seq<u64> {
        self.pml4@
    }

    /// The entries of the second-level table.
    pub closed spec fn pdpt_view(&self) -> Seq<u64> {
        self.pdpt@
    }

    /// The entries of all page directories, directory after directory: the
    /// entry for the 2 MiB region `r` stands at index `r`.
    pub closed spec fn pd_view(&self) -> Seq<u64> {
        self.directories@
    }

    /// The frame of the top-level table.
    pub closed spec fn root(&self) -> u64 {
        self.pml4_phys
    }

    /// The frame of the second-level table.
    pub closed spec fn second(&self) -> u64 {
        self.pdpt_phys
    }

    /// The directory entry for the 2 MiB region `region`.
    pub open spec fn pd_entry(&self, region: int) -> u64 {
        self.pd_view()[region]
    }

    /// Whether the directory for the GiB `index` exists.
    pub open spec fn directory_present(&self, index: int) -> bool {
        entry_present(self.pdpt_view()[index])
    }

    /// Whether the region is mapped, and onto itself.
    pub open spec fn maps(&self, region: int) -> bool {
        self.pd_entry(region) == identity_entry(region)
    }

    /// The tables have their sizes; the first entry of the top-level table
    /// points to the second-level table and its other entries are empty; a
    /// directory that does not exist has no entry; and every directory entry
    /// is empty or maps its region onto itself.
    pub open spec fn wf(&self) -> bool {
        &&& self.pml4_view().len() == ENTRIES
        &&& self.pdpt_view().len() == ENTRIES
        &&& self.pd_view().len() == REGIONS
        &&& self.pml4_view()[0] == table_entry(self.second())
        &&& forall|i: int| 1 <= i < ENTRIES ==> #[trigger] self.pml4_view()[i] == 0
        &&& forall|i: int|
            0 <= i < ENTRIES ==> (#[trigger] self.pdpt_view()[i] == 0 || self.directory_present(i))
        &&& forall|r: int|
            0 <= r < REGIONS ==> (#[trigger] self.pd_view()[r] == 0 || (self.maps(r)
                && self.directory_present(r / (ENTRIES as int))))
    }

    /// Empty tables in the two frames given: nothing is mapped.
    pub fn new(pml4_phys: u64, pdpt_phys: u64) -> (r: Self)
        ensures
            r.wf(),
            r.root() == pml4_phys,
            r.second() == pdpt_phys,
            forall|i: int| 0 <= i < ENTRIES ==> #[trigger] r.pdpt_view()[i] == 0,
            forall|i: int| 0 <= i < REGIONS ==> #[trigger] r.pd_view()[i] == 0,
    {
        let mut pml4 = zeroed(ENTRIES);
        let pdpt = zeroed(ENTRIES);
        let directories = zeroed(REGIONS);
        pml4.set(0, (pdpt_phys & ADDR_MASK_4K) | PTE_PRESENT | PTE_WRITABLE);
        PageTables { pml4_phys, pdpt_phys, pml4, pdpt, directories }
    }

    /// The frame that the top-level table belongs in.
    pub fn pml4_phys(&self) -> (r: u64)
        ensures
            r == self.root(),
    {
        self.pml4_phys
    }

    /// The frame that the second-level table belongs in.
    pub fn pdpt_phys(&self) -> (r: u64)
        ensures
            r == self.second(),
    {
        self.pdpt_phys
    }

    /// The entries of the top-level table.
    pub fn pml4_entries(&self) -> (r: &[u64])
        ensures
            r@ == self.pml4_view(),
    {
        self.pml4.as_slice()
    }

    /// The entries of the second-level table.
    pub fn pdpt_entries(&self) -> (r: &[u64])
        ensures
            r@ == self.pdpt_view(),
    {
        self.pdpt.as_slice()
    }

    /// The entries of all page directories; those of the directory for the
    /// GiB `i` stand at `512 * i` and after.
    pub fn directory_entries(&self) -> (r: &[u64])
        ensures
            r@ == self.pd_view(),
    {
        self.directories.as_slice()
    }

    /// Creates the directory for the GiB `index` in the frame that the
    /// frame source gave, if it gave one.
    pub fn install_directory(&mut self, index: usize, frame: Option<u64>) -> (r: Result<
        (),
        PagingError,
    >)
        requires
            old(self).wf(),
            index < ENTRIES,
            !old(self).directory_present(index as int),
        ensures
            final(self).wf(),
            final(self).root() == old(self).root(),
            final(self).second() == old(self).second(),
            final(self).pd_view() == old(self).pd_view(),
            final(self).pml4_view() == old(self).pml4_view(),
            match frame {
                None => r == Err::<(), _>(PagingError::OutOfFrames) && final(self).pdpt_view()
                    == old(self).pdpt_view(),
                Some(phys) => r is Ok && final(self).pdpt_view() == old(self).pdpt_view().update(
                    index as int,
                    table_entry(phys),
                ) && final(self).directory_present(index as int),
            },
    {
        match frame {
            None => Err(PagingError::OutOfFrames),
            Some(phys) => {
                proof {
                    lemma_entry_bits(phys, 0);
                }
                self.pdpt.set(index, (phys & ADDR_MASK_4K) | PTE_PRESENT | PTE_WRITABLE);
                proof {
                    assert forall|r: int| 0 <= r < REGIONS implies (#[trigger] self.pd_view()[r]
                        == 0 || (self.maps(r) && self.directory_present(
                        r / (ENTRIES as int),
                    ))) by {
                        if old(self).pd_view()[r] != 0 {
                            assert(old(self).directory_present(r / (ENTRIES as int)));
                        }
                    }
                }
                Ok(())
            },
        }
    }

    /// Writes the entry that maps the 2 MiB region `region` onto itself.
    pub fn map_region(&mut self, region: usize)
        requires
            old(self).wf(),
            region < REGIONS,
            old(self).directory_present(region as int / (ENTRIES as int)),
        ensures
            final(self).wf(),
            final(self).root() == old(self).root(),
            final(self).second() == old(self).second(),
            final(self).pml4_view() == old(self).pml4_view(),
            final(self).pdpt_view() == old(self).pdpt_view(),
            final(self).pd_view() == old(self).pd_view().update(
                region as int,
                identity_entry(region as int),
            ),
    {
        let addr: u64 = (region as u64) * HUGE_PAGE_SIZE;
        self.directories.set(region, (addr & ADDR_MASK_2M) | PTE_PRESENT | PTE_WRITABLE | PTE_PS);
    }
}

/// Number of indices from 0 to `n`, not included, at which `p` holds.
pub open spec fn count_below(p: spec_fn(int) -> bool, n: int) -> nat
    decreases n,
{
    if n <= 0 {
        0
    } else {
        count_below(p, n - 1) + if p(n - 1) {
            1nat
        } else {
            0nat
        }
    }
}

/// Where `p` holds nowhere, the number is zero.
pub proof fn lemma_count_none(p: spec_fn(int) -> bool, n: int)
    requires
        forall|i: int| 0 <= i < n ==> !#[trigger] p(i),
    ensures
        count_below(p, n) == 0,
    decreases n,
{
    if n > 0 {
        lemma_count_none(p, n - 1);
    }
}

/// Where `q` holds wherever `p` holds, it holds at least as often.
pub proof fn lemma_count_grows(p: spec_fn(int) -> bool, q: spec_fn(int) -> bool, n: int)
    requires
        forall|i: int| 0 <= i < n && #[trigger] p(i) ==> q(i),
    ensures
        count_below(p, n) <= count_below(q, n),
    decreases n,
{
    if n > 0 {
        lemma_count_grows(p, q, n - 1);
    }
}

/// Where `q` holds wherever `p` holds, and at `j` besides, it holds more
/// often.
pub proof fn lemma_count_grows_by_one(
    p: spec_fn(int) -> bool,
    q: spec_fn(int) -> bool,
    n: int,
    j: int,
)
    requires
        forall|i: int| 0 <= i < n && #[trigger] p(i) ==> q(i),
        0 <= j < n,
        q(j),
        !p(j),
    ensures
        count_below(p, n) < count_below(q, n),
    decreases n,
{
    if j == n - 1 {
        lemma_count_grows(p, q, n - 1);
    } else {
        lemma_count_grows_by_one(p, q, n - 1, j);
    }
}

/// Where `q` holds exactly where `p` holds and at `j` besides, it holds
/// once more.
pub proof fn lemma_count_one_more(
    p: spec_fn(int) -> bool,
    q: spec_fn(int) -> bool,
    n: int,
    j: int,
)
    requires
        forall|i: int| 0 <= i < n ==> (#[trigger] q(i) <==> p(i) || i == j),
        !p(j),
    ensures
        count_below(q, n) == count_below(p, n) + if 0 <= j < n {
            1nat
        } else {
            0nat
        },
    decreases n,
{
    if n > 0 {
        lemma_count_one_more(p, q, n - 1, j);
    }
}

/// Number of page directories that exist.
pub open spec fn directories(tables: PageTables) -> nat {
    count_below(|i: int| tables.directory_present(i), ENTRIES as int)
}

/// Number of page directories that the ranges need.
pub open spec fn directories_needed(ranges: Seq<(u64, u64)>) -> nat {
    count_below(|i: int| range_needs(ranges, i), ENTRIES as int)
}

/// Tables with the same directories hold as many.
proof fn lemma_directories_kept(a: PageTables, b: PageTables)
    requires
        a.pdpt_view() == b.pdpt_view(),
    ensures
        directories(a) == directories(b),
{
    lemma_count_grows(
        |i: int| a.directory_present(i),
        |i: int| b.directory_present(i),
        ENTRIES as int,
    );
    lemma_count_grows(
        |i: int| b.directory_present(i),
        |i: int| a.directory_present(i),
        ENTRIES as int,
    );
}

/// Whether mapping `[start, end)` needs the directory for the GiB `index`.
pub open spec fn directory_needed(index: int, start: u64, end: u64) -> bool {
    start < end && region_of(start as int) / (ENTRIES as int) <= index <= region_of(end - 1) / (
    ENTRIES as int)
}

/// Whether mapping the regions of `[start, end)` up to `upto`, not
/// included, needs the directory for the GiB `index`.
pub open spec fn directory_reached(index: int, start: u64, end: u64, upto: int) -> bool {
    &&& directory_needed(index, start, end)
    &&& upto > region_of(start as int)
    &&& index <= (upto - 1) / (ENTRIES as int)
}

/// How the tables `new` stand to the tables `old` once the regions of
/// `[start, end)` up to `upto`, not included, have been mapped: these
/// regions map onto themselves, the directories they need exist, and
/// nothing else has changed.
pub open spec fn mapped_upto(
    old: PageTables,
    new: PageTables,
    start: u64,
    end: u64,
    upto: int,
) -> bool {
    &&& new.root() == old.root()
    &&& new.second() == old.second()
    &&& new.pml4_view() == old.pml4_view()
    &&& forall|r: int|
        0 <= r < REGIONS ==> #[trigger] new.pd_entry(r) == if region_in(r, start, end) && r < upto {
            identity_entry(r)
        } else {
            old.pd_entry(r)
        }
    &&& forall|i: int|
        0 <= i < ENTRIES ==> (#[trigger] new.directory_present(i) <==> old.directory_present(i)
            || directory_reached(i, start, end, upto))
    &&& forall|i: int|
        0 <= i < ENTRIES && old.directory_present(i) ==> #[trigger] new.pdpt_view()[i]
            == old.pdpt_view()[i]
}

/// How the tables `new` stand to the tables `old` once `[start, end)` has
/// been mapped: every 2 MiB region that shares a byte with the range maps
/// onto itself, the directories for it exist, and nothing else has changed.
pub open spec fn identity_mapped(old: PageTables, new: PageTables, start: u64, end: u64) -> bool {
    mapped_upto(old, new, start, end, REGIONS as int)
}

/// Tables with the same entries stand to other tables in the same way.
proof fn lemma_same_views(
    old: PageTables,
    a: PageTables,
    b: PageTables,
    start: u64,
    end: u64,
    upto: int,
)
    requires
        mapped_upto(old, a, start, end, upto),
        a.root() == b.root(),
        a.second() == b.second(),
        a.pml4_view() == b.pml4_view(),
        a.pdpt_view() == b.pdpt_view(),
        a.pd_view() == b.pd_view(),
    ensures
        mapped_upto(old, b, start, end, upto),
{
    assert forall|r: int| 0 <= r < REGIONS implies #[trigger] b.pd_entry(r) == if region_in(
        r,
        start,
        end,
    ) && r < upto {
        identity_entry(r)
    } else {
        old.pd_entry(r)
    } by {
        assert(a.pd_entry(r) == b.pd_entry(r));
    }
    assert forall|i: int| 0 <= i < ENTRIES implies (#[trigger] b.directory_present(i)
        <==> old.directory_present(i) || directory_reached(i, start, end, upto)) by {
        assert(a.directory_present(i) == b.directory_present(i));
    }
    assert forall|i: int| 0 <= i < ENTRIES
        && old.directory_present(i) implies #[trigger] b.pdpt_view()[i]
        == old.pdpt_view()[i] by {
        assert(a.pdpt_view()[i] == b.pdpt_view()[i]);
    }
}

/// Makes sure that the directory for the GiB `index` exists, with a frame
/// from `alloc` if it has to be created, and returns its address as the
/// hardware reads it from the entry.
pub fn ensure_pd<A: FrameSource>(alloc: &mut A, tables: &mut PageTables, index: usize) -> (r:
    Result<u64, PagingError>)
    requires
        old(alloc).ready(),
        old(tables).wf(),
        index < ENTRIES,
    ensures
        final(alloc).ready(),
        final(alloc).remaining().subset_of(old(alloc).remaining()),
        final(tables).wf(),
        final(tables).root() == old(tables).root(),
        final(tables).second() == old(tables).second(),
        final(tables).pml4_view() == old(tables).pml4_view(),
        final(tables).pd_view() == old(tables).pd_view(),
        forall|i: int|
            0 <= i < ENTRIES && i != index
                ==> #[trigger] final(tables).pdpt_view()[i] == old(tables).pdpt_view()[i],
        old(tables).directory_present(index as int)
            ==> r is Ok && final(tables).pdpt_view() == old(tables).pdpt_view(),
        r matches Ok(phys)
            ==> final(tables).directory_present(index as int)
            && phys == final(tables).pdpt_view()[index as int] & ADDR_MASK_4K,
        r matches Err(e)
            ==> e == PagingError::OutOfFrames
            && final(tables).pdpt_view() == old(tables).pdpt_view(),
        old(alloc).available() matches Some(n) ==> {
            &&& r is Err ==> n == 0
            &&& final(alloc).available() matches Some(m) && m + directories(*final(tables)) == n
                + directories(*old(tables))
        },
{
    if tables.pdpt_entries()[index] & PTE_PRESENT == 0 {
        let frame = alloc.allocate_frame();
        match tables.install_directory(index, frame) {
            Err(e) => {
                proof {
                    lemma_directories_kept(*old(tables), *tables);
                }
                return Err(e);
            },
            Ok(_) => {},
        }
        proof {
            lemma_count_one_more(
                |i: int| old(tables).directory_present(i),
                |i: int| tables.directory_present(i),
                ENTRIES as int,
                index as int,
            );
        }
    } else {
        proof {
            lemma_directories_kept(*old(tables), *tables);
        }
    }
    Ok(tables.pdpt_entries()[index] & ADDR_MASK_4K)
}

/// The failure that mapping `[start, end)` ends with where no directory is
/// wanting: none for an empty range and for one that ends at or below
/// 512 GiB; otherwise the first 2 MiB boundary of the range at or beyond
/// 512 GiB.
pub open spec fn range_fault(start: u64, end: u64) -> Option<PagingError> {
    if start < end && region_of(end - 1) >= REGIONS {
        Some(
            PagingError::UnsupportedAddress(
                if region_of(start as int) >= REGIONS {
                    huge_floor(start as int) as u64
                } else {
                    MAPPING_LIMIT
                },
            ),
        )
    } else {
        None
    }
}

/// The failure of the first of `ranges` that has one.
pub open spec fn first_fault(ranges: Seq<(u64, u64)>) -> Option<PagingError>
    decreases ranges.len(),
{
    if ranges.len() == 0 {
        None
    } else {
        match range_fault(ranges[0].0, ranges[0].1) {
            Some(e) => Some(e),
            None => first_fault(ranges.skip(1)),
        }
    }
}

/// Maps `[start, end)` onto itself with 2 MiB pages: the range is widened
/// to 2 MiB boundaries, and every region of it gets its entry, lowest
/// first. Directories are created as they are needed, each in a frame from
/// `alloc`. The walk stops at the first region at or beyond 512 GiB with
/// `UnsupportedAddress`, and with `OutOfFrames` when `alloc` has no frame for
/// a directory; what was mapped until then stays mapped.
pub fn map_identity_range_2mib<A: FrameSource>(
    alloc: &mut A,
    tables: &mut PageTables,
    start: u64,
    end: u64,
) -> (r: Result<(), PagingError>)
    requires
        old(alloc).ready(),
        old(tables).wf(),
    ensures
        final(alloc).ready(),
        final(alloc).remaining().subset_of(old(alloc).remaining()),
        final(tables).wf(),
        start >= end ==> r is Ok && mapped_upto(*old(tables), *final(tables), start, end, 0),
        start < end ==> ({
            let first = region_of(start as int);
            let last = region_of(end - 1);
            &&& r is Ok ==> last < REGIONS && identity_mapped(
                *old(tables),
                *final(tables),
                start,
                end,
            )
            &&& first >= REGIONS ==> r == Err::<(), _>(
                PagingError::UnsupportedAddress(huge_floor(start as int) as u64),
            ) && mapped_upto(*old(tables), *final(tables), start, end, 0)
            &&& r matches Err(PagingError::UnsupportedAddress(addr)) ==> last >= REGIONS && addr
                == (if first >= REGIONS {
                huge_floor(start as int)
            } else {
                MAPPING_LIMIT as int
            }) && identity_mapped(*old(tables), *final(tables), start, end)
            &&& r matches Err(PagingError::OutOfFrames) ==> exists|upto: int|
                first <= upto <= last && upto < REGIONS && !old(tables).directory_present(
                    upto / (ENTRIES as int),
                ) && !final(tables).directory_present(upto / (ENTRIES as int))
                    && #[trigger] mapped_upto(*old(tables), *final(tables), start, end, upto)
            &&& !(r matches Err(PagingError::AddressOverflow(_, _)))
            &&& last < REGIONS && (forall|i: int|
                0 <= i < ENTRIES && directory_needed(i, start, end)
                    ==> old(tables).directory_present(i)) ==> r is Ok
        }),
        r is Ok ==> range_fault(start, end) is None,
        r matches Err(e) ==> e is OutOfFrames || range_fault(start, end) == Some(e),
        old(alloc).available() matches Some(n) ==> {
            &&& r matches Err(PagingError::OutOfFrames) ==> directories(*final(tables)) == n
                + directories(*old(tables))
            &&& final(alloc).available() matches Some(m) && m + directories(*final(tables)) == n
                + directories(*old(tables))
        },
{
    if start >= end {
        return Ok(());
    }
    let ghost first = region_of(start as int);
    let ghost last = region_of(end - 1);
    let mut addr: u64 = start - start % HUGE_PAGE_SIZE;
    assert(addr == first * HUGE_PAGE_SIZE) by (nonlinear_arith)
        requires
            addr == start - start % HUGE_PAGE_SIZE,
            first == (start as int) / (HUGE_PAGE_SIZE as int),
            HUGE_PAGE_SIZE == 0x20_0000,
    ;
    assert(last >= first) by (nonlinear_arith)
        requires
            first == (start as int) / 0x20_0000,
            last == (end - 1) / 0x20_0000,
            start <= end - 1,
    ;
    let ghost mut upto: int = first;
    while addr < end
        invariant
            alloc.ready(),
            alloc.remaining().subset_of(old(alloc).remaining()),
            tables.wf(),
            old(tables).wf(),
            start < end,
            first == region_of(start as int),
            last == region_of(end - 1),
            first <= upto,
            upto <= last + 1,
            upto <= REGIONS || upto == first,
            addr == upto * HUGE_PAGE_SIZE,
            mapped_upto(*old(tables), *tables, start, end, upto),
            old(alloc).available() matches Some(n) ==> (alloc.available() matches Some(m) && m
                + directories(*tables) == n + directories(*old(tables))),
        decreases
                if end > addr {
                    end - addr
                } else {
                    0
                },
    {
        if addr >= MAPPING_LIMIT {
            proof {
                assert(upto >= REGIONS) by (nonlinear_arith)
                    requires
                        upto * 0x20_0000 >= 0x80_0000_0000,
                ;
                assert(last >= upto) by (nonlinear_arith)
                    requires
                        upto * 0x20_0000 <= end - 1,
                        last == (end - 1) / 0x20_0000,
                ;
                if first < REGIONS {
                    assert(upto == REGIONS);
                }
            }
            return Err(PagingError::UnsupportedAddress(addr));
        }
        let region: usize = (addr / HUGE_PAGE_SIZE) as usize;
        let pdpt_index: usize = region / ENTRIES;
        proof {
            assert(region == upto) by (nonlinear_arith)
                requires
                    addr == upto * 0x20_0000,
                    region == addr / 0x20_0000,
            ;
            assert(upto < REGIONS) by (nonlinear_arith)
                requires
                    upto * 0x20_0000 < 0x80_0000_0000,
            ;
            assert(upto <= last) by (nonlinear_arith)
                requires
                    upto * 0x20_0000 <= end - 1,
                    last == (end - 1) / 0x20_0000,
            ;
        }
        let ghost before = *tables;
        match ensure_pd(alloc, tables, pdpt_index) {
            Err(e) => {
                proof {
                    if old(tables).directory_present(pdpt_index as int) {
                        assert(before.pdpt_view()[pdpt_index as int]
                            == old(tables).pdpt_view()[pdpt_index as int]);
                    }
                    lemma_same_views(*old(tables), before, *tables, start, end, upto);
                    lemma_directories_kept(before, *tables);
                }
                return Err(e);
            },
            Ok(_) => {},
        }
        let ghost between = *tables;
        tables.map_region(region);
        proof {
            lemma_directories_kept(between, *tables);
            assert(addr + HUGE_PAGE_SIZE <= u64::MAX);
            let next = upto + 1;
            assert forall|r: int| 0 <= r < REGIONS implies #[trigger] tables.pd_entry(r)
                == if region_in(r, start, end) && r < next {
                identity_entry(r)
            } else {
                old(tables).pd_entry(r)
            } by {
                assert(before.pd_entry(r) == if region_in(r, start, end) && r < upto {
                    identity_entry(r)
                } else {
                    old(tables).pd_entry(r)
                });
            }
            assert forall|i: int| 0 <= i < ENTRIES implies (#[trigger] tables.directory_present(i)
                <==> old(tables).directory_present(i)
                    || directory_reached(i, start, end, next)) by {
                assert(before.directory_present(i) <==> old(tables).directory_present(i)
                    || directory_reached(i, start, end, upto));
                if i != pdpt_index {
                    assert(between.pdpt_view()[i] == before.pdpt_view()[i]);
                } else {
                    assert(first / (ENTRIES as int) <= i);
                    assert(i <= last / (ENTRIES as int));
                }
            }
            assert forall|i: int| 0 <= i < ENTRIES && old(tables).directory_present(
                i,
            ) implies #[trigger] tables.pdpt_view()[i] == old(tables).pdpt_view()[i] by {
                assert(before.pdpt_view()[i] == old(tables).pdpt_view()[i]);
                assert(before.directory_present(i));
            }
            upto = next;
        }
        let next_addr: u64 = match addr.checked_add(HUGE_PAGE_SIZE) {
            None => {
                return Err(PagingError::AddressOverflow(addr, HUGE_PAGE_SIZE));
            },
            Some(next) => next,
        };
        addr = next_addr;
    }
    proof {
        assert(upto == last + 1) by (nonlinear_arith)
            requires
                upto * 0x20_0000 >= end,
                upto <= last + 1,
                last == (end - 1) / 0x20_0000,
                end >= 1,
        ;
        assert(identity_mapped(*old(tables), *tables, start, end));
    }
    Ok(())
}

/// Whether the 2 MiB region `region` shares a byte with one of the ranges.
pub open spec fn range_covers(ranges: Seq<(u64, u64)>, region: int) -> bool {
    exists|k: int|
        0 <= k < ranges.len() && region_in(region, (#[trigger] ranges[k]).0, ranges[k].1)
}

/// Whether one of the ranges needs the directory for the GiB `index`.
pub open spec fn range_needs(ranges: Seq<(u64, u64)>, index: int) -> bool {
    exists|k: int|
        0 <= k < ranges.len() && directory_needed(index, (#[trigger] ranges[k]).0, ranges[k].1)
}

/// The ranges that bring-up maps, in the order in which it maps them: the
/// low window, the framebuffer, and the ranges that the caller adds.
pub open spec fn staged_ranges(fb: Framebuffer, low_bytes: u64, extra: Seq<(u64, u64)>) -> Seq<
    (u64, u64),
> {
    seq![(0u64, low_bytes), (fb.base_address, (fb.base_address + fb.buffer_size) as u64)] + extra
}

/// The failure that building the tables ends with where the frame source
/// does not run out: that of the low window; else, where the end of the
/// framebuffer does not fit in 64 bits, that overflow; else that of the
/// first of the framebuffer and the added ranges that has one.
pub open spec fn paging_fault(fb: Framebuffer, low_bytes: u64, extra: Seq<(u64, u64)>) -> Option<
    PagingError,
> {
    match range_fault(0, low_bytes) {
        Some(e) => Some(e),
        None => if fb.base_address + fb.buffer_size > u64::MAX {
            Some(PagingError::AddressOverflow(fb.base_address, fb.buffer_size))
        } else {
            match range_fault(fb.base_address, (fb.base_address + fb.buffer_size) as u64) {
                Some(e) => Some(e),
                None => first_fault(extra),
            }
        },
    }
}

/// The tables map exactly the regions of the ranges, each onto itself, and
/// hold exactly the directories that the ranges need.
pub open spec fn maps_exactly(tables: PageTables, ranges: Seq<(u64, u64)>) -> bool {
    &&& forall|r: int|
        0 <= r < REGIONS ==> #[trigger] tables.pd_entry(r) == if range_covers(ranges, r) {
            identity_entry(r)
        } else {
            0
        }
    &&& forall|i: int|
        0 <= i < ENTRIES ==> (#[trigger] tables.directory_present(i) <==> range_needs(ranges, i))
}

/// Mapping one more range onto tables that map exactly some ranges.
proof fn lemma_maps_one_more(
    before: PageTables,
    after: PageTables,
    ranges: Seq<(u64, u64)>,
    start: u64,
    end: u64,
)
    requires
        maps_exactly(before, ranges),
        start >= end ==> mapped_upto(before, after, start, end, 0),
        start < end ==> identity_mapped(before, after, start, end) && region_of(end - 1) < REGIONS,
    ensures
        maps_exactly(after, ranges.push((start, end))),
{
    let wider = ranges.push((start, end));
    assert forall|r: int| 0 <= r < REGIONS implies (range_covers(wider, r) <==> range_covers(
        ranges,
        r,
    ) || region_in(r, start, end)) by {
        if range_covers(wider, r) {
            let k = choose|k: int|
                0 <= k < wider.len() && region_in(r, (#[trigger] wider[k]).0, wider[k].1);
            if k < ranges.len() {
                assert(ranges[k] == wider[k]);
            }
        }
        if range_covers(ranges, r) {
            let k = choose|k: int|
                0 <= k < ranges.len() && region_in(r, (#[trigger] ranges[k]).0, ranges[k].1);
            assert(wider[k] == ranges[k]);
        }
        if region_in(r, start, end) {
            assert(wider[ranges.len() as int] == (start, end));
        }
    }
    assert forall|i: int| 0 <= i < ENTRIES implies (range_needs(wider, i) <==> range_needs(
        ranges,
        i,
    ) || directory_needed(i, start, end)) by {
        if range_needs(wider, i) {
            let k = choose|k: int|
                0 <= k < wider.len() && directory_needed(i, (#[trigger] wider[k]).0, wider[k].1);
            if k < ranges.len() {
                assert(ranges[k] == wider[k]);
            }
        }
        if range_needs(ranges, i) {
            let k = choose|k: int|
                0 <= k < ranges.len() && directory_needed(
                    i,
                    (#[trigger] ranges[k]).0,
                    ranges[k].1,
                );
            assert(wider[k] == ranges[k]);
        }
        if directory_needed(i, start, end) {
            assert(wider[ranges.len() as int] == (start, end));
        }
    }
    assert forall|r: int| 0 <= r < REGIONS implies #[trigger] after.pd_entry(r) == if range_covers(
        wider,
        r,
    ) {
        identity_entry(r)
    } else {
        0
    } by {
        assert(before.pd_entry(r) == if range_covers(ranges, r) {
            identity_entry(r)
        } else {
            0
        });
    }
    assert forall|i: int| 0 <= i < ENTRIES implies (#[trigger] after.directory_present(i)
        <==> range_needs(wider, i)) by {
        assert(before.directory_present(i) <==> range_needs(ranges, i));
        if start < end {
            assert(directory_reached(i, start, end, REGIONS as int) <==> directory_needed(
                i,
                start,
                end,
            ));
        }
    }
}

/// Tables that map exactly some ranges hold as many directories as the
/// ranges need.
proof fn lemma_directories_exact(tables: PageTables, ranges: Seq<(u64, u64)>)
    requires
        maps_exactly(tables, ranges),
    ensures
        directories(tables) == directories_needed(ranges),
{
    lemma_count_grows(
        |i: int| tables.directory_present(i),
        |i: int| range_needs(ranges, i),
        ENTRIES as int,
    );
    lemma_count_grows(
        |i: int| range_needs(ranges, i),
        |i: int| tables.directory_present(i),
        ENTRIES as int,
    );
}

/// Where mapping the range `k` of `ranges` stopped for want of a directory,
/// on tables that mapped exactly the ranges before it, the tables hold
/// fewer directories than the ranges need.
proof fn lemma_directory_wanting(
    before: PageTables,
    after: PageTables,
    ranges: Seq<(u64, u64)>,
    k: int,
)
    requires
        0 <= k < ranges.len(),
        maps_exactly(before, ranges.take(k)),
        ranges[k].0 < ranges[k].1,
        exists|upto: int|
            region_of(ranges[k].0 as int) <= upto <= region_of(ranges[k].1 - 1) && upto < REGIONS
                && !after.directory_present(upto / (ENTRIES as int)) && #[trigger] mapped_upto(
                before,
                after,
                ranges[k].0,
                ranges[k].1,
                upto,
            ),
    ensures
        directories(after) < directories_needed(ranges),
{
    let (start, end) = ranges[k];
    let upto = choose|upto: int|
        region_of(start as int) <= upto <= region_of(end - 1) && upto < REGIONS
            && !after.directory_present(upto / (ENTRIES as int)) && #[trigger] mapped_upto(
            before,
            after,
            start,
            end,
            upto,
        );
    let wanting = upto / (ENTRIES as int);
    assert forall|i: int| 0 <= i < ENTRIES && #[trigger] after.directory_present(
        i,
    ) implies range_needs(ranges, i) by {
        if before.directory_present(i) {
            let earlier = ranges.take(k);
            assert(range_needs(earlier, i));
            let j = choose|j: int|
                0 <= j < earlier.len() && directory_needed(
                    i,
                    (#[trigger] earlier[j]).0,
                    earlier[j].1,
                );
            assert(ranges[j] == earlier[j]);
        } else {
            assert(directory_reached(i, start, end, upto));
        }
    }
    assert(directory_needed(wanting, start, end));
    assert(range_needs(ranges, wanting));
    lemma_count_grows_by_one(
        |i: int| after.directory_present(i),
        |i: int| range_needs(ranges, i),
        ENTRIES as int,
        wanting,
    );
}

/// Builds fresh tables that map onto themselves, with 2 MiB pages, the low
/// window `[0, low_bytes)`, the framebuffer, and each of `extra_ranges`, in
/// this order. The two top tables and each directory take a frame from
/// `alloc`. Nothing but these ranges is mapped.
pub fn build_identity_paging<A: FrameSource>(
    alloc: &mut A,
    fb: &Framebuffer,
    low_bytes: u64,
    extra_ranges: &[(u64, u64)],
) -> (r: Result<PageTables, PagingError>)
    requires
        old(alloc).ready(),
    ensures
        final(alloc).ready(),
        final(alloc).remaining().subset_of(old(alloc).remaining()),
        r matches Ok(tables) ==> {
            &&& tables.wf()
            &&& old(alloc).remaining().contains(tables.root() as int)
            &&& old(alloc).remaining().contains(tables.second() as int)
            &&& fb.base_address + fb.buffer_size <= u64::MAX
            &&& maps_exactly(tables, staged_ranges(*fb, low_bytes, extra_ranges@))
            &&& forall|k: int|
                0 <= k < staged_ranges(*fb, low_bytes, extra_ranges@).len() ==> {
                    let range = #[trigger] staged_ranges(*fb, low_bytes, extra_ranges@)[k];
                    range.0 < range.1 ==> range.1 <= MAPPING_LIMIT
                }
        },
        old(alloc).available() matches Some(n) ==> ({
            let wanted = 2 + directories_needed(staged_ranges(*fb, low_bytes, extra_ranges@));
            &&& r matches Err(PagingError::OutOfFrames) ==> n < wanted
            &&& r is Ok ==> n >= wanted && final(alloc).available() == Some((n - wanted) as nat)
            &&& paging_fault(*fb, low_bytes, extra_ranges@) is None ==> (r is Ok <==> n >= wanted)
        }),
        r is Ok ==> paging_fault(*fb, low_bytes, extra_ranges@) is None,
        r matches Err(e) ==> e is OutOfFrames || paging_fault(*fb, low_bytes, extra_ranges@)
            == Some(e),
        r matches Err(PagingError::AddressOverflow(start, size)) ==> start == fb.base_address
            && size == fb.buffer_size && fb.base_address + fb.buffer_size > u64::MAX,
        r matches Err(PagingError::UnsupportedAddress(addr)) ==> addr >= MAPPING_LIMIT && addr
            % HUGE_PAGE_SIZE == 0 && exists|k: int|
            0 <= k < staged_ranges(*fb, low_bytes, extra_ranges@).len() && {
                let range = #[trigger] staged_ranges(*fb, low_bytes, extra_ranges@)[k];
                range.0 < range.1 && range.1 > MAPPING_LIMIT
            },
{
    let pml4_phys: u64 = match alloc.allocate_frame() {
        None => {
            return Err(PagingError::OutOfFrames);
        },
        Some(frame) => frame,
    };
    let pdpt_phys: u64 = match alloc.allocate_frame() {
        None => {
            return Err(PagingError::OutOfFrames);
        },
        Some(frame) => frame,
    };
    let mut tables = PageTables::new(pml4_phys, pdpt_phys);
    let ghost staged = staged_ranges(*fb, low_bytes, extra_ranges@);
    let ghost empty = Seq::<(u64, u64)>::empty();
    proof {
        lemma_entry_bits(0, 0);
        assert(0u64 & PTE_PRESENT == 0) by (bit_vector);
        assert(maps_exactly(tables, empty));
        lemma_count_none(|i: int| tables.directory_present(i), ENTRIES as int);
    }
    let ghost fresh = tables;
    match map_identity_range_2mib(alloc, &mut tables, 0, low_bytes) {
        Err(e) => {
            proof {
                lemma_unsupported(0, low_bytes, e);
                assert(staged[0] == (0u64, low_bytes));
                if e is OutOfFrames {
                    assert(staged.take(0) =~= empty);
                    lemma_directory_wanting(fresh, tables, staged, 0);
                }
            }
            return Err(e);
        },
        Ok(_) => {},
    }
    proof {
        lemma_maps_one_more(fresh, tables, empty, 0, low_bytes);
        lemma_range_end(0, low_bytes);
    }
    let fb_start: u64 = fb.base_address;
    let fb_end: u64 = match fb.base_address.checked_add(fb.buffer_size) {
        None => {
            return Err(PagingError::AddressOverflow(fb.base_address, fb.buffer_size));
        },
        Some(end) => end,
    };
    let ghost low = tables;
    match map_identity_range_2mib(alloc, &mut tables, fb_start, fb_end) {
        Err(e) => {
            proof {
                lemma_unsupported(fb_start, fb_end, e);
                assert(staged[1] == (fb_start, fb_end));
                if e is OutOfFrames {
                    assert(staged.take(1) =~= empty.push((0u64, low_bytes)));
                    lemma_directory_wanting(low, tables, staged, 1);
                }
            }
            return Err(e);
        },
        Ok(_) => {},
    }
    proof {
        lemma_maps_one_more(low, tables, empty.push((0u64, low_bytes)), fb_start, fb_end);
        lemma_range_end(fb_start, fb_end);
        assert(empty.push((0u64, low_bytes)).push((fb_start, fb_end)) =~= staged.take(2));
        assert(extra_ranges@.skip(0) =~= extra_ranges@);
    }
    let count: usize = extra_ranges.len();
    let mut i: usize = 0;
    while i < count
        invariant
            alloc.ready(),
            alloc.remaining().subset_of(old(alloc).remaining()),
            tables.wf(),
            i <= count,
            count == extra_ranges@.len(),
            staged == staged_ranges(*fb, low_bytes, extra_ranges@),
            fb.base_address + fb.buffer_size <= u64::MAX,
            maps_exactly(tables, staged.take(2 + i)),
            paging_fault(*fb, low_bytes, extra_ranges@) == first_fault(
                extra_ranges@.skip(i as int),
            ),
            tables.root() == pml4_phys,
            tables.second() == pdpt_phys,
            old(alloc).remaining().contains(pml4_phys as int),
            old(alloc).remaining().contains(pdpt_phys as int),
            old(alloc).available() matches Some(n) ==> (alloc.available() matches Some(m) && m
                + directories(tables) + 2 == n),
            forall|k: int|
                0 <= k < 2 + i ==> {
                    let range = #[trigger] staged[k];
                    range.0 < range.1 ==> range.1 <= MAPPING_LIMIT
                },
        decreases count - i,
    {
        let (start, end) = extra_ranges[i];
        let ghost before = tables;
        proof {
            assert(staged[2 + i] == (start, end));
            assert(extra_ranges@.skip(i as int)[0] == (start, end));
            assert(extra_ranges@.skip(i as int).skip(1) =~= extra_ranges@.skip(i as int + 1));
        }
        match map_identity_range_2mib(alloc, &mut tables, start, end) {
            Err(e) => {
                proof {
                    lemma_unsupported(start, end, e);
                    if e is OutOfFrames {
                        lemma_directory_wanting(before, tables, staged, 2 + i);
                    }
                }
                return Err(e);
            },
            Ok(_) => {},
        }
        proof {
            lemma_maps_one_more(before, tables, staged.take(2 + i), start, end);
            lemma_range_end(start, end);
            assert(staged.take(2 + i).push((start, end)) =~= staged.take(2 + i + 1));
        }
        i = i + 1;
    }
    proof {
        assert(staged.take(2 + count) =~= staged);
        lemma_directories_exact(tables, staged);
    }
    Ok(tables)
}

/// A range whose last region lies below the mapping limit ends at or below
/// the limit.
proof fn lemma_range_end(start: u64, end: u64)
    ensures
        start < end && region_of(end - 1) < REGIONS ==> end <= MAPPING_LIMIT,
        start < end && region_of(end - 1) >= REGIONS ==> end > MAPPING_LIMIT,
{
}

/// The address that a failed mapping reports lies on a 2 MiB boundary at or
/// beyond the mapping limit, and the range that was being mapped reaches
/// beyond the limit.
proof fn lemma_unsupported(start: u64, end: u64, e: PagingError)
    requires
        start < end ==> (e matches PagingError::UnsupportedAddress(addr) ==> region_of(end - 1)
            >= REGIONS && addr == (if region_of(start as int) >= REGIONS {
            huge_floor(start as int)
        } else {
            MAPPING_LIMIT as int
        })),
        start >= end ==> !(e is UnsupportedAddress),
    ensures
        e matches PagingError::UnsupportedAddress(addr) ==> addr >= MAPPING_LIMIT && addr
            % HUGE_PAGE_SIZE == 0 && start < end && end > MAPPING_LIMIT,
{
}

/// Two ranges that overlap produce the same entries for what they share:
/// the range that is mapped second writes, for each region that both hold,
/// the entry that the first range wrote. More than that, the two ranges
/// leave the same entries in whichever order they are mapped.
pub proof fn lemma_overlapping_ranges_agree(
    base: PageTables,
    first: PageTables,
    both: PageTables,
    other: PageTables,
    swapped: PageTables,
    a: (u64, u64),
    b: (u64, u64),
)
    requires
        identity_mapped(base, first, a.0, a.1),
        identity_mapped(first, both, b.0, b.1),
        identity_mapped(base, other, b.0, b.1),
        identity_mapped(other, swapped, a.0, a.1),
    ensures
        forall|r: int|
            0 <= r < REGIONS && region_in(r, a.0, a.1) && region_in(r, b.0, b.1) ==> both.pd_entry(
                r,
            ) == #[trigger] first.pd_entry(r) && both.pd_entry(r) == identity_entry(r),
        forall|r: int| 0 <= r < REGIONS ==> #[trigger] both.pd_entry(r) == swapped.pd_entry(r),
{
    assert forall|r: int| 0 <= r < REGIONS implies #[trigger] both.pd_entry(r) == swapped.pd_entry(
        r,
    ) by {
        assert(first.pd_entry(r) == if region_in(r, a.0, a.1) {
            identity_entry(r)
        } else {
            base.pd_entry(r)
        });
        assert(other.pd_entry(r) == if region_in(r, b.0, b.1) {
            identity_entry(r)
        } else {
            base.pd_entry(r)
        });
    }
}

/// A range that starts at or beyond 512 GiB starts in no region that the
/// tables can map; and rounding a start on a 2 MiB boundary down changes
/// nothing.
pub proof fn lemma_start_beyond_limit(start: u64)
    ensures
        start >= MAPPING_LIMIT <==> region_of(start as int) >= REGIONS,
        start % HUGE_PAGE_SIZE == 0 ==> huge_floor(start as int) == start,
{
}

} // verus!
