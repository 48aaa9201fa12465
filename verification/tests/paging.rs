use oxide_boot::abi::{Framebuffer, PixelFormat};
use oxide_boot::memory::error::PagingError;
use oxide_boot::memory::paging::{
    align_down, align_up, build_identity_paging, ensure_pd, map_identity_range_2mib, PageTables,
    PhysFrameAlloc, Unchecked, ADDR_MASK_4K, ENTRIES, HUGE_PAGE_SIZE, MAPPING_LIMIT,
    PTE_PRESENT, PTE_PS, PTE_WRITABLE, REGIONS,
};

struct StubFrames {
    next: u64,
    left: usize,
    handed: usize,
}

impl StubFrames {
    fn new(left: usize) -> Unchecked<StubFrames> {
        Unchecked(StubFrames { next: 0x10_0000, left, handed: 0 })
    }
}

impl PhysFrameAlloc for StubFrames {
    fn allocate_frame(&mut self) -> Option<u64> {
        if self.left == 0 {
            return None;
        }
        self.left -= 1;
        self.handed += 1;
        let frame = self.next;
        self.next += 0x1000;
        Some(frame)
    }
}

const FLAGS: u64 = PTE_PRESENT | PTE_WRITABLE | PTE_PS;

fn no_framebuffer() -> Framebuffer {
    Framebuffer {
        base_address: 0,
        buffer_size: 0,
        width: 0,
        height: 0,
        pixels_per_scanline: 0,
        pixel_format: PixelFormat::Rgb,
    }
}

#[test]
fn first_gib_takes_three_tables() {
    let mut frames = StubFrames::new(256);
    let tables =
        build_identity_paging(&mut frames, &no_framebuffer(), 0x4000_0000, &[]).unwrap();
    assert_eq!(frames.0.handed, 3);
    assert_eq!(tables.pml4_phys(), 0x10_0000);
    assert_eq!(tables.pdpt_phys(), 0x10_1000);
    assert_eq!(tables.pml4_entries().len(), ENTRIES);
    assert_eq!(tables.pml4_entries()[0], 0x10_1000 | PTE_PRESENT | PTE_WRITABLE);
    assert!(tables.pml4_entries()[1..].iter().all(|&e| e == 0));
    assert_eq!(tables.pdpt_entries()[0], 0x10_2000 | PTE_PRESENT | PTE_WRITABLE);
    assert!(tables.pdpt_entries()[1..].iter().all(|&e| e == 0));
    let entries = tables.directory_entries();
    assert_eq!(entries.len(), REGIONS);
    for region in 0..512usize {
        assert_eq!(entries[region], (region as u64) * HUGE_PAGE_SIZE | FLAGS);
        assert_eq!(entries[region] & FLAGS, FLAGS);
    }
    assert!(entries[512..].iter().all(|&e| e == 0));
}

#[test]
fn range_beyond_the_limit_is_refused() {
    let mut frames = StubFrames::new(8);
    let mut tables = PageTables::new(0x1000, 0x2000);
    assert_eq!(
        map_identity_range_2mib(&mut frames, &mut tables, 1 << 39, (1 << 39) + 1),
        Err(PagingError::UnsupportedAddress(1 << 39))
    );
    assert_eq!(
        map_identity_range_2mib(&mut frames, &mut tables, (1 << 40) + 5, (1 << 40) + 6),
        Err(PagingError::UnsupportedAddress(1 << 40))
    );
    assert_eq!(frames.0.handed, 0);
    assert!(tables.directory_entries().iter().all(|&e| e == 0));
    assert_eq!(MAPPING_LIMIT, 1 << 39);
}

#[test]
fn range_that_crosses_the_limit_maps_up_to_it() {
    let mut frames = StubFrames::new(8);
    let mut tables = PageTables::new(0x1000, 0x2000);
    let start = (1u64 << 39) - 2 * HUGE_PAGE_SIZE;
    assert_eq!(
        map_identity_range_2mib(&mut frames, &mut tables, start, (1 << 39) + 1),
        Err(PagingError::UnsupportedAddress(1 << 39))
    );
    assert_eq!(frames.0.handed, 1);
    let entries = tables.directory_entries();
    assert_eq!(entries[REGIONS - 1], ((1u64 << 39) - HUGE_PAGE_SIZE) | FLAGS);
    assert_eq!(entries[REGIONS - 2], start | FLAGS);
    assert_eq!(entries[REGIONS - 3], 0);
}

#[test]
fn overlapping_ranges_agree_on_what_they_share() {
    let a = (3 * HUGE_PAGE_SIZE + 17, 9 * HUGE_PAGE_SIZE);
    let b = (6 * HUGE_PAGE_SIZE, 12 * HUGE_PAGE_SIZE + 1);

    let mut frames = StubFrames::new(8);
    let mut first = PageTables::new(0x1000, 0x2000);
    map_identity_range_2mib(&mut frames, &mut first, a.0, a.1).unwrap();
    let after_a: Vec<u64> = first.directory_entries().to_vec();
    map_identity_range_2mib(&mut frames, &mut first, b.0, b.1).unwrap();
    assert_eq!(frames.0.handed, 1);

    let mut other_frames = StubFrames::new(8);
    let mut second = PageTables::new(0x1000, 0x2000);
    map_identity_range_2mib(&mut other_frames, &mut second, b.0, b.1).unwrap();
    map_identity_range_2mib(&mut other_frames, &mut second, a.0, a.1).unwrap();

    assert_eq!(first.directory_entries(), second.directory_entries());
    for region in 6..9usize {
        assert_eq!(first.directory_entries()[region], after_a[region]);
        assert_eq!(first.directory_entries()[region], (region as u64) * HUGE_PAGE_SIZE | FLAGS);
    }
    for region in 0..REGIONS {
        let mapped = (3..=12).contains(&region);
        assert_eq!(first.directory_entries()[region] != 0, mapped);
    }
}

#[test]
fn empty_range_maps_nothing() {
    let mut frames = StubFrames::new(8);
    let mut tables = PageTables::new(0x1000, 0x2000);
    assert_eq!(map_identity_range_2mib(&mut frames, &mut tables, 0x5000, 0x5000), Ok(()));
    assert_eq!(map_identity_range_2mib(&mut frames, &mut tables, 1 << 50, 5), Ok(()));
    assert_eq!(frames.0.handed, 0);
}

#[test]
fn builder_reports_exhausted_frames_and_overflow() {
    let mut none = StubFrames::new(0);
    assert_eq!(
        build_identity_paging(&mut none, &no_framebuffer(), 0x4000_0000, &[]).err(),
        Some(PagingError::OutOfFrames)
    );
    let mut two = StubFrames::new(2);
    assert_eq!(
        build_identity_paging(&mut two, &no_framebuffer(), 0x4000_0000, &[]).err(),
        Some(PagingError::OutOfFrames)
    );
    let mut plenty = StubFrames::new(16);
    let fb = Framebuffer { base_address: u64::MAX - 10, buffer_size: 11, ..no_framebuffer() };
    assert_eq!(
        build_identity_paging(&mut plenty, &fb, 0x4000_0000, &[]).err(),
        Some(PagingError::AddressOverflow(u64::MAX - 10, 11))
    );
    let mut more = StubFrames::new(16);
    let high = Framebuffer { base_address: 1 << 39, buffer_size: 0x1000, ..no_framebuffer() };
    assert_eq!(
        build_identity_paging(&mut more, &high, 0x4000_0000, &[]).err(),
        Some(PagingError::UnsupportedAddress(1 << 39))
    );
}

#[test]
fn builder_maps_window_framebuffer_and_extras() {
    let mut frames = StubFrames::new(16);
    let fb = Framebuffer {
        base_address: 0x4000_0000,
        buffer_size: 0x00e1_0000,
        width: 800,
        height: 600,
        pixels_per_scanline: 800,
        pixel_format: PixelFormat::Rgb,
    };
    let extras = [(0x1_8000_0000u64, 0x1_8000_1000u64), (0x1000, 0x2000)];
    let tables = build_identity_paging(&mut frames, &fb, 0x4000_0000, &extras).unwrap();
    assert_eq!(frames.0.handed, 5);
    let entries = tables.directory_entries();
    let mapped: Vec<usize> = (0..REGIONS).filter(|&r| entries[r] != 0).collect();
    let mut expected: Vec<usize> = (0..512).collect();
    expected.extend(512..520);
    expected.push(3072);
    assert_eq!(mapped, expected);
    for &region in &mapped {
        assert_eq!(entries[region], (region as u64) * HUGE_PAGE_SIZE | FLAGS);
    }
    let present: Vec<usize> =
        (0..ENTRIES).filter(|&i| tables.pdpt_entries()[i] & PTE_PRESENT != 0).collect();
    assert_eq!(present, vec![0, 1, 6]);
}

#[test]
fn ensure_pd_allocates_once() {
    let mut frames = StubFrames::new(4);
    let mut tables = PageTables::new(0x1000, 0x2000);
    assert_eq!(ensure_pd(&mut frames, &mut tables, 7), Ok(0x10_0000));
    assert_eq!(ensure_pd(&mut frames, &mut tables, 7), Ok(0x10_0000));
    assert_eq!(frames.0.handed, 1);
    assert_eq!(tables.pdpt_entries()[7] & ADDR_MASK_4K, 0x10_0000);
    let mut dry = StubFrames::new(0);
    assert_eq!(ensure_pd(&mut dry, &mut tables, 8), Err(PagingError::OutOfFrames));
    assert_eq!(tables.install_directory(9, None), Err(PagingError::OutOfFrames));
    assert_eq!(tables.install_directory(9, Some(0x7000)), Ok(()));
    assert_eq!(tables.pdpt_entries()[9], 0x7003);
    tables.map_region(9 * 512 + 1);
    assert_eq!(tables.directory_entries()[9 * 512 + 1], (9 * 512 + 1) * HUGE_PAGE_SIZE | FLAGS);
}

#[test]
fn alignment_helpers_round_to_powers_of_two() {
    assert_eq!(align_down(0x20_1234, HUGE_PAGE_SIZE), 0x20_0000);
    assert_eq!(align_up(0x20_0001, HUGE_PAGE_SIZE), 0x40_0000);
    assert_eq!(align_up(0x20_0000, HUGE_PAGE_SIZE), 0x20_0000);
    assert_eq!(align_down(0x1fff, 0x1000), 0x1000);
}
