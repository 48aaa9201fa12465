use oxide_boot::abi::{MemoryMap, PixelFormat, ABI_VERSION};
use oxide_boot::loader::abi::{build_boot_abi, convert_memory_map, pages_for};
use oxide_boot::loader::firmware::{
    copy_vendor_string, firmware_info_from_utf8, firmware_into_abi, get_info,
};
use oxide_boot::loader::flags::{get_boot_flags, BootFlags};
use oxide_boot::loader::framebuffer::{
    draw_char, draw_glyph_rows, framebuffer_into_abi, map_pixel_format, put_pixel, write_line,
    FramebufferInfo, FramebufferPixelFormat, GopPixelFormat, TextCursor,
};
use oxide_boot::loader::options::{
    get_boot_options, options_into_abi, unit_is_space, BootOptions,
};
use oxide_boot::loader::time::{measure_tsc_frequency, MEASUREMENT_DELAY_US};
use oxide_boot::loader::writer::FixedBufWriter;

fn ucs2(text: &str) -> Vec<u16> {
    let mut units: Vec<u16> = text.encode_utf16().collect();
    units.push(0);
    units
}

fn info(width: usize, height: usize, format: FramebufferPixelFormat) -> FramebufferInfo {
    FramebufferInfo {
        base: 0x8000_0000,
        size: width * height * 4,
        width,
        height,
        stride: width,
        pixel_format: format,
    }
}

#[test]
fn options_are_words_between_white_space() {
    assert_eq!(
        get_boot_options(&ucs2("debug quiet")),
        BootOptions { debug: true, quiet: true }
    );
    assert_eq!(
        get_boot_options(&ucs2("  quiet\tfoo=1 ")),
        BootOptions { debug: false, quiet: true }
    );
    assert_eq!(
        get_boot_options(&ucs2("debugging nodebug Debug quiet2")),
        BootOptions { debug: false, quiet: false }
    );
    assert_eq!(
        get_boot_options(&ucs2("x\u{00a0}debug\u{3000}y")),
        BootOptions { debug: true, quiet: false }
    );
    assert_eq!(get_boot_options(&ucs2("")), BootOptions::default());
    assert_eq!(get_boot_options(&ucs2("debug")), BootOptions { debug: true, quiet: false });
    assert_eq!(get_boot_flags(&ucs2("quiet")), BootFlags { debug: false, quiet: true });
    assert_eq!(BootFlags::default(), BootFlags { debug: false, quiet: false });
}

#[test]
fn broken_or_long_command_lines_ask_for_nothing() {
    assert_eq!(get_boot_options(&[]), BootOptions::default());
    let unterminated: Vec<u16> = "debug".encode_utf16().collect();
    assert_eq!(get_boot_options(&unterminated), BootOptions::default());
    let mut inner = ucs2("debug");
    inner.extend_from_slice(&ucs2(" quiet"));
    assert_eq!(get_boot_options(&inner), BootOptions::default());
    let surrogate = vec![0x64, 0xd800, 0x20, 0x71, 0x75, 0x69, 0x65, 0x74, 0];
    assert_eq!(get_boot_options(&surrogate), BootOptions::default());

    let fits = format!("debug {}", "x".repeat(250));
    assert_eq!(fits.len(), 256);
    assert_eq!(get_boot_options(&ucs2(&fits)), BootOptions { debug: true, quiet: false });
    let long = format!("debug {}", "x".repeat(251));
    assert_eq!(get_boot_options(&ucs2(&long)), BootOptions::default());
    // 86 characters of three bytes each are 258 bytes of UTF-8.
    let wide = format!("quiet {}", "\u{20ac}".repeat(84));
    assert_eq!(get_boot_options(&ucs2(&wide)), BootOptions::default());
}

#[test]
fn white_space_follows_the_unicode_property() {
    for unit in [0x09u16, 0x0a, 0x0b, 0x0c, 0x0d, 0x20, 0x85, 0xa0, 0x1680, 0x2000, 0x200a, 0x2028, 0x2029, 0x202f, 0x205f, 0x3000] {
        assert!(unit_is_space(unit));
    }
    for unit in [0x08u16, 0x0e, 0x1f, 0x21, 0x84, 0x86, 0x200b, 0x2027, 0x3001, 0x41] {
        assert!(!unit_is_space(unit));
    }
    for unit in 0..=0xffffu16 {
        if (0xd800..=0xdfff).contains(&unit) {
            continue;
        }
        let ch = char::from_u32(unit as u32).unwrap();
        assert_eq!(unit_is_space(unit), ch.is_whitespace());
    }
}

#[test]
fn options_go_into_the_record_as_bytes() {
    let on = options_into_abi(BootOptions { debug: true, quiet: false });
    assert_eq!((on.debug, on.quiet), (1, 0));
    let off = options_into_abi(BootOptions { debug: false, quiet: true });
    assert_eq!((off.debug, off.quiet), (0, 1));
}

#[test]
fn vendor_is_converted_and_kept_within_32_bytes() {
    let short = get_info(0x0002_0046, &ucs2("EDK II"));
    assert_eq!(short.revision, 0x0002_0046);
    assert_eq!(short.vendor_str(), "EDK II");
    assert!(!short.vendor_was_truncated());
    assert_eq!(short.vendor_utf8(), b"EDK II");

    let accents = get_info(1, &ucs2("Caf\u{e9} \u{20ac}"));
    assert_eq!(accents.vendor_str(), "Caf\u{e9} \u{20ac}");
    assert_eq!(accents.vendor_utf8(), &[0x43, 0x61, 0x66, 0xc3, 0xa9, 0x20, 0xe2, 0x82, 0xac]);

    let exact = get_info(1, &ucs2(&"v".repeat(32)));
    assert_eq!(exact.vendor_str().len(), 32);
    assert!(!exact.vendor_was_truncated());

    let long = get_info(1, &ucs2(&"w".repeat(33)));
    assert_eq!(long.vendor_str(), "w".repeat(32));
    assert!(long.vendor_was_truncated());

    // Cut inside the last character: what is kept is no text.
    let cut = get_info(1, &ucs2(&format!("{}\u{e9}", "a".repeat(31))));
    assert!(cut.vendor_was_truncated());
    assert_eq!(cut.vendor_utf8().len(), 32);
    assert_eq!(cut.vendor_str(), "INVALID UTF-8");

    let broken = get_info(1, &[0x41, 0xdc00, 0]);
    assert_eq!(broken.vendor_str(), "");
    assert!(broken.vendor_was_truncated());
}

#[test]
fn vendor_bytes_are_zero_padded() {
    let (bytes, len, truncated) = copy_vendor_string(b"abc");
    assert_eq!(len, 3);
    assert!(!truncated);
    assert_eq!(&bytes[..3], b"abc");
    assert!(bytes[3..].iter().all(|&b| b == 0));
    let (full, len, truncated) = copy_vendor_string(&[9u8; 40]);
    assert_eq!((len, truncated), (32, true));
    assert_eq!(full, [9u8; 32]);
    let kept = firmware_info_from_utf8(7, b"xyz", false);
    let record = firmware_into_abi(&kept);
    assert_eq!(record.revision, 7);
    assert_eq!(record.vendor_len, 3);
    assert_eq!(record.vendor_truncated, 0);
    assert_eq!(&record.vendor[..3], b"xyz");
}

#[test]
fn fixed_writer_takes_what_fits() {
    let mut writer = FixedBufWriter::new(5);
    assert_eq!(writer.len(), 0);
    assert!(writer.write_bytes(b"abc").is_ok());
    assert!(writer.write_bytes(b"defg").is_err());
    assert_eq!(writer.as_slice(), b"abcde");
    assert!(writer.write_bytes(b"").is_ok());
    assert!(writer.write_bytes(b"x").is_err());
    assert_eq!(writer.len(), 5);
}

#[test]
fn frequency_is_ticks_per_second() {
    assert_eq!(MEASUREMENT_DELAY_US, 50_000);
    assert_eq!(measure_tsc_frequency(1_000, 150_001_000, 50_000), Some(3_000_000_000));
    assert_eq!(measure_tsc_frequency(7, 7, 50_000), None);
    assert_eq!(measure_tsc_frequency(u64::MAX, 49, 50_000), Some(1_000));
    assert_eq!(measure_tsc_frequency(0, u64::MAX, 1), None);
    assert_eq!(measure_tsc_frequency(0, 5, 0), None);
    assert_eq!(measure_tsc_frequency(0, 3, 2_000_000), Some(1));
}

#[test]
fn pixel_formats_of_the_firmware_map_to_two_layouts() {
    assert_eq!(map_pixel_format(GopPixelFormat::Rgb), Some(FramebufferPixelFormat::XRGB8888));
    assert_eq!(map_pixel_format(GopPixelFormat::Bgr), Some(FramebufferPixelFormat::BGRX8888));
    assert_eq!(map_pixel_format(GopPixelFormat::Bitmask), None);
    assert_eq!(map_pixel_format(GopPixelFormat::BltOnly), None);
}

#[test]
fn pixels_are_laid_out_by_format() {
    let fb = info(4, 2, FramebufferPixelFormat::XRGB8888);
    let mut bytes = vec![0xeeu8; 4 * 2 * 4];
    assert!(put_pixel(&fb, &mut bytes, 1, 1, 0x00aa_bbcc));
    assert_eq!(&bytes[20..24], &[0x00, 0xaa, 0xbb, 0xcc]);
    assert!(bytes[..20].iter().chain(bytes[24..].iter()).all(|&b| b == 0xee));
    let other = info(4, 2, FramebufferPixelFormat::BGRX8888);
    assert!(put_pixel(&other, &mut bytes, 3, 1, 0x00aa_bbcc));
    assert_eq!(&bytes[28..32], &[0xcc, 0xbb, 0xaa, 0x00]);
    assert!(!put_pixel(&other, &mut bytes, 0, 2, 0x00ff_ffff));
    assert!(!put_pixel(&other, &mut bytes, usize::MAX, usize::MAX, 0x00ff_ffff));
    assert_eq!(&bytes[28..32], &[0xcc, 0xbb, 0xaa, 0x00]);
}

#[test]
fn glyph_rows_are_drawn_white_on_black() {
    let fb = info(16, 32, FramebufferPixelFormat::BGRX8888);
    let mut bytes = vec![0x55u8; 16 * 32 * 4];
    let rows = vec![vec![true, false, true], vec![false, false, true]];
    draw_glyph_rows(&fb, &mut bytes, &rows, 1, 1);
    for y in 0..32usize {
        for x in 0..16usize {
            let at = (y * 16 + x) * 4;
            let expected: [u8; 4] = match (x, y) {
                (8, 16) | (10, 16) | (10, 17) => [0xff, 0xff, 0xff, 0],
                (9, 16) | (8, 17) | (9, 17) => [0, 0, 0, 0],
                _ => [0x55; 4],
            };
            assert_eq!(&bytes[at..at + 4], &expected);
        }
    }
}

fn spleen_rows(ch: u8) -> Option<Vec<Vec<bool>>> {
    let mut font = spleen_font::PSF2Font::new(spleen_font::FONT_8X16).ok()?;
    let glyph = font.glyph_for_utf8(&[ch])?;
    Some(glyph.map(|row| row.collect()).collect())
}

#[test]
fn characters_come_from_the_spleen_font() {
    let fb = info(24, 32, FramebufferPixelFormat::XRGB8888);
    let mut painted_cells = 0;
    for ch in [b' ', b'A', b'B', b'z', b'0', 0x7f, 0x01] {
        let mut bytes = vec![0x55u8; 24 * 32 * 4];
        draw_char(&fb, &mut bytes, ch, 1, 1);
        let rows = spleen_rows(ch).unwrap_or_default();
        for y in 0..32usize {
            for x in 0..24usize {
                let at = (y * 24 + x) * 4;
                let in_glyph = y >= 16 && y - 16 < rows.len() && x >= 8 && x - 8 < rows[y - 16].len();
                let expected: [u8; 4] = if !in_glyph {
                    [0x55; 4]
                } else if rows[y - 16][x - 8] {
                    [0, 0xff, 0xff, 0xff]
                } else {
                    [0, 0, 0, 0]
                };
                assert_eq!(&bytes[at..at + 4], &expected);
            }
        }
        if !rows.is_empty() {
            painted_cells += 1;
        }
    }
    assert!(painted_cells > 0);
    let mut high = vec![0x55u8; 24 * 32 * 4];
    draw_char(&fb, &mut high, 0xc3, 0, 0);
    assert!(high.iter().all(|&b| b == 0x55));
}

#[test]
fn lines_move_the_cursor_and_stay_on_the_grid() {
    // Two columns, two rows.
    let fb = info(16, 32, FramebufferPixelFormat::XRGB8888);
    let mut bytes = vec![0u8; 16 * 32 * 4];
    let mut cursor = TextCursor { x: 0, y: 0 };
    write_line(&fb, &mut bytes, &mut cursor, b"a");
    assert_eq!(cursor, TextCursor { x: 0, y: 1 });
    write_line(&fb, &mut bytes, &mut cursor, b"bc");
    assert_eq!(cursor, TextCursor { x: 0, y: 2 });
    write_line(&fb, &mut bytes, &mut cursor, b"");
    assert_eq!(cursor, TextCursor { x: 0, y: 3 });
    write_line(&fb, &mut bytes, &mut cursor, b"d\ne");
    assert_eq!(cursor, TextCursor { x: 0, y: 2 });
    assert!(bytes.iter().any(|&b| b == 0xff));
}

#[test]
fn hand_off_record_is_put_together() {
    let fw = firmware_info_from_utf8(0x0002_0046, b"ACME", false);
    let fb = info(800, 600, FramebufferPixelFormat::BGRX8888);
    let map = convert_memory_map(0x7f00_0000, 4800, 48, 1, 100);
    assert_eq!(
        map,
        MemoryMap {
            descriptors_phys: 0x7f00_0000,
            map_size: 4800,
            entry_size: 48,
            entry_version: 1,
            entry_count: 100,
        }
    );
    let abi =
        build_boot_abi(&fw, &fb, BootOptions { debug: true, quiet: false }, Some(2_400_000_000), map);
    assert_eq!(abi.version, ABI_VERSION);
    assert_eq!((abi.options.debug, abi.options.quiet), (1, 0));
    assert_eq!(abi.firmware.revision, 0x0002_0046);
    assert_eq!(&abi.firmware.vendor[..abi.firmware.vendor_len as usize], b"ACME");
    assert_eq!(abi.tsc_frequency_hz, 2_400_000_000);
    assert_eq!(abi.memory_map, map);
    assert_eq!(abi.framebuffer.base_address, 0x8000_0000);
    assert_eq!(abi.framebuffer.buffer_size, 800 * 600 * 4);
    assert_eq!(abi.framebuffer.pixels_per_scanline, 800);
    assert_eq!(abi.framebuffer.pixel_format, PixelFormat::Bgr);
    assert_eq!(framebuffer_into_abi(&fb), abi.framebuffer);
    let uncalibrated = build_boot_abi(&fw, &fb, BootOptions::default(), None, map);
    assert_eq!(uncalibrated.tsc_frequency_hz, 0);
    assert!(oxide_boot::boot::validate_boot_abi(&abi).is_ok());
    assert_eq!(pages_for(1), 1);
    assert_eq!(pages_for(4096), 1);
    assert_eq!(pages_for(4097), 2);
    assert_eq!(pages_for(0), 0);
}
