use oxide_boot::abi::{Framebuffer, PixelFormat};
use oxide_boot::framebuffer::boot::{
    boot_stage_color, boot_stage_position_x, draw_boot_stage, BootStage,
};
use oxide_boot::framebuffer::draw::{
    clear_black, draw_glyph, encode_pixel, fill_rect, FramebufferColor, FramebufferSurface,
};
use oxide_boot::framebuffer::font::{double_rows, glyph_for, FONT_HEIGHT, FONT_WIDTH};
use oxide_boot::framebuffer::text::{
    sanitize_byte, Cursor, FramebufferConsole, Viewport, LINE_SPACING,
};

fn surface(pitch: usize, width: usize, height: usize) -> FramebufferSurface {
    FramebufferSurface { base_address: 0x1000, pitch, width, height, pixel_format: PixelFormat::Rgb }
}

fn record(width: u32, height: u32, pitch: u32) -> Framebuffer {
    Framebuffer {
        base_address: 0x1000,
        buffer_size: (pitch as u64) * (height as u64) * 4,
        width,
        height,
        pixels_per_scanline: pitch,
        pixel_format: PixelFormat::Rgb,
    }
}

#[test]
fn framebuffer_color_components_round_trip() {
    let color = FramebufferColor::new(0x12, 0x34, 0x56);
    assert_eq!(color.components(), (0x12, 0x34, 0x56));
}

#[test]
fn encode_pixel_respects_rgb_format() {
    let color = FramebufferColor::new(0xAA, 0xBB, 0xCC);
    let encoded = encode_pixel(PixelFormat::Rgb, color);
    assert_eq!(encoded, 0xFF_CC_BB_AA);
}

#[test]
fn encode_pixel_respects_bgr_format() {
    let color = FramebufferColor::new(0x11, 0x22, 0x33);
    let encoded = encode_pixel(PixelFormat::Bgr, color);
    assert_eq!(encoded, 0xFF_11_22_33);
}

#[test]
fn framebuffer_surface_validate_rejects_invalid_geometry() {
    let surface = FramebufferSurface {
        base_address: 0,
        pitch: 1,
        width: 1,
        height: 1,
        pixel_format: PixelFormat::Rgb,
    };
    assert!(surface.validate().is_err());
}

#[test]
fn fill_rect_blits_only_within_bounds() {
    let pitch = 5;
    let width = 5;
    let height = 4;
    let mut backing = vec![0u32; pitch * height];
    let surface = surface(pitch, width, height);

    let color = FramebufferColor::new(0x10, 0x20, 0x30);
    fill_rect(surface, &mut backing, 1, 1, 3, 2, color).unwrap();

    let encoded = encode_pixel(PixelFormat::Rgb, color);
    for row in 0..height {
        for col in 0..width {
            let idx = row * pitch + col;
            if (1..4).contains(&col) && (1..3).contains(&row) {
                assert_eq!(backing[idx], encoded);
            } else {
                assert_eq!(backing[idx], 0);
            }
        }
    }
}

#[test]
fn fill_rect_rejects_out_of_bounds_origin() {
    let pitch = 4;
    let width = 4;
    let height = 4;
    let mut backing = vec![0u32; pitch * height];
    let result =
        fill_rect(surface(pitch, width, height), &mut backing, width + 1, 0, 1, 1, FramebufferColor::white());
    assert!(result.is_err());
}

#[test]
fn fill_rect_rejects_out_of_bounds_row() {
    let pitch = 4;
    let width = 4;
    let height = 4;
    let mut backing = vec![0u32; pitch * height];
    let result =
        fill_rect(surface(pitch, width, height), &mut backing, 0, height, 1, 1, FramebufferColor::white());
    assert!(result.is_err());
}

#[test]
fn fill_rect_rejects_origin_past_pitch() {
    let pitch = 4;
    let width = 6;
    let height = 4;
    let mut backing = vec![0u32; pitch * height];
    let result =
        fill_rect(surface(pitch, width, height), &mut backing, pitch, 0, 1, 1, FramebufferColor::white());
    assert!(result.is_err());
}

#[test]
fn draw_glyph_sets_pixels_for_known_character() {
    let pitch = 8;
    let width = 8;
    let height = FONT_HEIGHT * 2;
    let mut backing = vec![0u32; pitch * height];
    let color = FramebufferColor::white();
    draw_glyph(surface(pitch, width, height), &mut backing, 0, 0, b'A', color).unwrap();
    let encoded = encode_pixel(PixelFormat::Rgb, color);
    assert!(backing.iter().any(|&pixel| pixel == encoded));
}

#[test]
fn sanitize_byte_filters_control_characters() {
    assert_eq!(sanitize_byte(b'a'), b'A');
    assert_eq!(sanitize_byte(b'Z'), b'Z');
    assert_eq!(sanitize_byte(b'\n'), b'\n');
    assert_eq!(sanitize_byte(b'\t'), b' ');
    assert_eq!(sanitize_byte(0x1B), b'?');
}

#[test]
fn viewport_new_calculates_geometry() {
    let viewport = Viewport::new(surface(200, 160, 60), 0, 0);
    assert_eq!(viewport.cols, 160 / FONT_WIDTH);
    assert_eq!(viewport.line_stride, FONT_HEIGHT + LINE_SPACING);
    assert!(viewport.rows >= 1);
    assert_eq!(viewport.rows, 3);
}

#[test]
fn viewport_pixel_position_within_bounds() {
    let viewport = Viewport::new(surface(200, 160, 80), 10, 20);
    let cursor = Cursor { col: 2, row: 1 };
    let expected_x = 10 + 2 * FONT_WIDTH;
    let expected_y = 20 + 1 * (FONT_HEIGHT + LINE_SPACING);
    assert_eq!(viewport.pixel_position(cursor), Some((expected_x, expected_y)));
}

#[test]
fn viewport_pixel_position_out_of_bounds_returns_none() {
    let viewport = Viewport::new(surface(40, 80, 40), 0, 0);
    let cursor = Cursor { col: viewport.cols, row: 0 };
    assert_eq!(viewport.pixel_position(cursor), None);
}

#[test]
fn glyph_for_doubles_the_rows_of_the_font() {
    let a = glyph_for(b'A');
    assert_eq!(a, glyph_for(b'a'));
    assert_eq!(
        a,
        [24, 24, 60, 60, 102, 102, 102, 102, 126, 126, 102, 102, 102, 102, 102, 102]
    );
    assert_eq!(glyph_for(b' '), [0; 16]);
    assert_eq!(glyph_for(0x07), glyph_for(b'?'));
    assert_eq!(glyph_for(0xf0), glyph_for(b'?'));
    assert_eq!(
        double_rows([1, 2, 3, 4, 5, 6, 7, 8]),
        [1, 1, 2, 2, 3, 3, 4, 4, 5, 5, 6, 6, 7, 7, 8, 8]
    );
}

#[test]
fn draw_glyph_sets_exactly_the_pixels_of_the_glyph() {
    let pitch = 12;
    let mut backing = vec![7u32; pitch * 20];
    let color = FramebufferColor::new(1, 2, 3);
    draw_glyph(surface(pitch, 10, 20), &mut backing, 1, 2, b'A', color).unwrap();
    let glyph = glyph_for(b'A');
    let pixel = encode_pixel(PixelFormat::Rgb, color);
    for row in 0..20usize {
        for col in 0..pitch {
            let inside = (2..18).contains(&row) && (1..9).contains(&col);
            let set = inside && (glyph[row - 2] >> (7 - (col - 1))) & 1 == 1;
            assert_eq!(backing[row * pitch + col], if set { pixel } else { 7 });
        }
    }
}

#[test]
fn drawing_is_held_to_the_buffer() {
    let mut short = vec![0u32; 4 * 4 - 1];
    assert!(fill_rect(surface(4, 4, 4), &mut short, 0, 0, 4, 4, FramebufferColor::white()).is_err());
    assert!(short.iter().all(|&p| p == 0));
    assert!(fill_rect(surface(4, 4, 4), &mut short, 0, 0, 4, 3, FramebufferColor::white()).is_ok());
    assert!(fill_rect(surface(4, 4, 4), &mut short, 0, 0, 0, 9, FramebufferColor::white()).is_ok());
    let mut tiny = vec![0u32; 8 * 15];
    assert!(draw_glyph(surface(8, 8, 16), &mut tiny, 0, 0, b'A', FramebufferColor::white()).is_err());
    assert!(tiny.iter().all(|&p| p == 0));
}

#[test]
fn clear_black_clears_rows_that_fit() {
    let fb = record(3, 4, 5);
    let mut backing = vec![0x1234_5678u32; 5 * 4];
    clear_black(&fb, &mut backing).unwrap();
    for row in 0..4usize {
        for col in 0..5usize {
            let expected = if col < 3 { 0xff00_0000 } else { 0x1234_5678 };
            assert_eq!(backing[row * 5 + col], expected);
        }
    }
    let mut short = vec![1u32; 5 * 2 + 4];
    clear_black(&fb, &mut short).unwrap();
    assert_eq!(short[9], 1);
    assert_eq!(short[5], 0xff00_0000);
    assert_eq!(short[10], 1);
    let mut none = vec![1u32; 4];
    assert!(clear_black(&fb, &mut none).is_err());
    let null = Framebuffer { base_address: 0, ..fb };
    assert!(clear_black(&null, &mut backing).is_err());
}

#[test]
fn boot_stages_line_up_from_the_left() {
    assert_eq!(boot_stage_position_x(BootStage::EnteredKernel), 0);
    assert_eq!(boot_stage_position_x(BootStage::FrameAllocated), 192);
    assert_eq!(boot_stage_position_x(BootStage::PagingEnabled), 256);
    assert_eq!(boot_stage_color(BootStage::EnteredKernel).components(), (0xff, 0, 0));
    assert_eq!(boot_stage_color(BootStage::PagingEnabled).components(), (0, 0, 0xff));
    assert_eq!(BootStage::ParsedMemoryMap as u8, 1);

    let fb = record(400, 40, 400);
    let mut backing = vec![0u32; 400 * 40];
    draw_boot_stage(&fb, &mut backing, BootStage::FoundUsableMemory).unwrap();
    let yellow = encode_pixel(PixelFormat::Rgb, FramebufferColor::new(0xff, 0xff, 0));
    assert_eq!(yellow, 0xff00_ffff);
    for row in 0..40usize {
        for col in 0..400usize {
            let inside = row < 32 && (128..192).contains(&col);
            assert_eq!(backing[row * 400 + col], if inside { yellow } else { 0 });
        }
    }
    let narrow = record(100, 40, 100);
    let mut small = vec![0u32; 100 * 40];
    assert!(draw_boot_stage(&narrow, &mut small, BootStage::FoundUsableMemory).is_err());
}

#[test]
fn console_writes_wraps_and_scrolls() {
    // Two columns and two rows: 16 pixels wide, 36 high.
    let fb = record(16, 36, 16);
    let mut pixels = vec![0u32; 16 * 36];
    let color = FramebufferColor::white();
    let mut console = FramebufferConsole::new(fb, 0, 0, color);
    assert!(console.is_usable());
    assert_eq!(console.cols(), 2);
    console.clear(&mut pixels).unwrap();
    assert!(pixels.iter().all(|&p| p == 0xff00_0000));

    console.write_bytes(&mut pixels, b"ab").unwrap();
    assert_eq!(console.cursor_position(), Cursor { col: 2, row: 0 });
    let white = encode_pixel(PixelFormat::Rgb, color);
    let glyph_a = glyph_for(b'A');
    let glyph_b = glyph_for(b'B');
    for row in 0..16usize {
        for col in 0..16usize {
            let bits = if col < 8 { glyph_a[row] } else { glyph_b[row] };
            let set = (bits >> (7 - (col % 8))) & 1 == 1;
            assert_eq!(pixels[row * 16 + col], if set { white } else { 0xff00_0000 });
        }
    }
    let first_line: Vec<u32> = pixels[..16 * 16].to_vec();

    console.write_bytes(&mut pixels, b"c").unwrap();
    assert_eq!(console.cursor_position(), Cursor { col: 1, row: 1 });
    assert_eq!(&pixels[..16 * 16], &first_line[..]);
    let second_line: Vec<u32> = pixels[20 * 16..36 * 16].to_vec();

    console.write_bytes(&mut pixels, b"\r\n").unwrap();
    assert_eq!(console.cursor_position(), Cursor { col: 0, row: 1 });
    // The second line moved to the top, and the bottom line is black.
    assert_eq!(&pixels[..16 * 16], &second_line[..]);
    assert!(pixels[20 * 16..].iter().all(|&p| p == 0xff00_0000));

    let unusable = FramebufferConsole::new(record(4, 4, 4), 0, 0, color);
    assert!(!unusable.is_usable());
    let mut other = FramebufferConsole::new(record(4, 4, 4), 0, 0, color);
    let mut few = vec![0u32; 16];
    assert!(other.write_bytes(&mut few, b"x").is_err());
    assert!(other.clear(&mut few).is_err());
    assert!(few.iter().all(|&p| p == 0));
}
