//! The framebuffer as the loader finds it, and the loader's own plain text
//! output on it. The framebuffer is a slice of bytes that the caller lays
//! over the device memory.

use vstd::prelude::*;
use vstd::std_specs::convert::FromSpecImpl;
use crate::abi::{Framebuffer, PixelFormat};

verus! {

/// Width of a character cell in pixels.
pub const FONT_W: usize = 8;

/// Height of a character cell in pixels.
pub const FONT_H: usize = 16;

/// The color of text: white.
pub const FOREGROUND: u32 = 0x00ff_ffff;

/// The color behind text: black.
pub const BACKGROUND: u32 = 0x0000_0000;

/// The pixel layouts that the graphics output of the firmware can have.
#[derive(Clone, Copy, Debug, PartialEq, Eq, Structural)]
pub enum GopPixelFormat {
    Rgb,
    Bgr,
    Bitmask,
    BltOnly,
}

/// The pixel layouts that the loader can draw on. The byte that is not
/// named is padding.
#[derive(Clone, Copy, Debug, PartialEq, Eq, Structural)]
pub enum FramebufferPixelFormat {
    XRGB8888,
    BGRX8888,
}

/// The framebuffer that the loader found.
#[derive(Clone, Copy, Debug, PartialEq, Eq, Structural)]
pub struct FramebufferInfo {
    pub base: u64,
    pub size: usize,
    pub width: usize,
    pub height: usize,
    pub stride: usize,
    pub pixel_format: FramebufferPixelFormat,
}

/// The layout that the loader draws a layout of the firmware with, where
/// it can draw it at all.
pub fn map_pixel_format(fmt: GopPixelFormat) -> (r: Option<FramebufferPixelFormat>)
    ensures
        r == match fmt {
            GopPixelFormat::Rgb => Some(FramebufferPixelFormat::XRGB8888),
            GopPixelFormat::Bgr => Some(FramebufferPixelFormat::BGRX8888),
            _ => None::<FramebufferPixelFormat>,
        },
{
    match fmt {
        GopPixelFormat::Rgb => Some(FramebufferPixelFormat::XRGB8888),
        GopPixelFormat::Bgr => Some(FramebufferPixelFormat::BGRX8888),
        _ => None,
    }
}

/// The framebuffer record of the hand-off. Sizes that do not fit the 32-bit
/// fields of the record are cut to their low 32 bits.
pub open spec fn framebuffer_record(info: FramebufferInfo) -> Framebuffer {
    Framebuffer {
        base_address: info.base,
        buffer_size: info.size as u64,
        width: ((info.width as u64) % 0x1_0000_0000) as u32,
        height: ((info.height as u64) % 0x1_0000_0000) as u32,
        pixels_per_scanline: ((info.stride as u64) % 0x1_0000_0000) as u32,
        pixel_format: match info.pixel_format {
            FramebufferPixelFormat::XRGB8888 => PixelFormat::Rgb,
            FramebufferPixelFormat::BGRX8888 => PixelFormat::Bgr,
        },
    }
}

impl From<FramebufferInfo> for Framebuffer {
    fn from(info: FramebufferInfo) -> (r: Self) {
        framebuffer_into_abi(&info)
    }
}

impl FromSpecImpl<FramebufferInfo> for Framebuffer {
    open spec fn obeys_from_spec() -> bool {
        true
    }

    open spec fn from_spec(info: FramebufferInfo) -> Self {
        framebuffer_record(info)
    }
}

/// Puts the framebuffer that the loader found into the hand-off record.
pub fn framebuffer_into_abi(info: &FramebufferInfo) -> (r: Framebuffer)
    ensures
        r == framebuffer_record(*info),
{
    Framebuffer {
        base_address: info.base,
        buffer_size: info.size as u64,
        width: ((info.width as u64) % 0x1_0000_0000) as u32,
        height: ((info.height as u64) % 0x1_0000_0000) as u32,
        pixels_per_scanline: ((info.stride as u64) % 0x1_0000_0000) as u32,
        pixel_format: match info.pixel_format {
            FramebufferPixelFormat::XRGB8888 => PixelFormat::Rgb,
            FramebufferPixelFormat::BGRX8888 => PixelFormat::Bgr,
        },
    }
}

/// The four bytes of a pixel of the color `color`, given as red, green and
/// blue in its low three bytes, highest first.
pub open spec fn pixel_bytes(format: FramebufferPixelFormat, color: u32) -> Seq<u8> {
    let red = ((color >> 16) & 0xff) as u8;
    let green = ((color >> 8) & 0xff) as u8;
    let blue = (color & 0xff) as u8;
    match format {
        FramebufferPixelFormat::XRGB8888 => seq![0u8, red, green, blue],
        FramebufferPixelFormat::BGRX8888 => seq![blue, green, red, 0u8],
    }
}

/// The index of the first byte of the pixel at `(x, y)`.
pub open spec fn pixel_offset(fb: FramebufferInfo, x: int, y: int) -> int {
    (y * fb.stride + x) * 4
}

/// The bytes after `put_pixel`.
pub open spec fn pixel_put(
    fb: FramebufferInfo,
    bytes: Seq<u8>,
    x: int,
    y: int,
    color: u32,
) -> Seq<u8> {
    let offset = pixel_offset(fb, x, y);
    if 0 <= x <= usize::MAX && 0 <= y <= usize::MAX && offset + 4 <= bytes.len() {
        Seq::new(
            bytes.len(),
            |i: int|
                if offset <= i < offset + 4 {
                    pixel_bytes(fb.pixel_format, color)[i - offset]
                } else {
                    bytes[i]
                },
        )
    } else {
        bytes
    }
}

/// Writes the pixel at `(x, y)`. A pixel that does not lie inside the
/// bytes given is not written.
pub fn put_pixel(
    fb: &FramebufferInfo,
    bytes: &mut [u8],
    x: usize,
    y: usize,
    color: u32,
) -> (r: bool)
    ensures
        final(bytes)@.len() == old(bytes)@.len(),
        r == (pixel_offset(*fb, x as int, y as int) + 4 <= old(bytes)@.len()),
        final(bytes)@ == pixel_put(*fb, old(bytes)@, x as int, y as int, color),
{
    let len: usize = bytes.len();
    let row: usize = match y.checked_mul(fb.stride) {
        None => {
            proof {
                assert(pixel_offset(*fb, x as int, y as int) >= len) by (nonlinear_arith)
                    requires
                        y * fb.stride > usize::MAX,
                        len <= usize::MAX,
                        x >= 0,
                        pixel_offset(*fb, x as int, y as int) == (y * fb.stride + x) * 4,
                ;
            }
            return false;
        },
        Some(row) => row,
    };
    let index: usize = match row.checked_add(x) {
        None => {
            return false;
        },
        Some(index) => index,
    };
    let offset: usize = match index.checked_mul(4) {
        None => {
            return false;
        },
        Some(offset) => offset,
    };
    if len < 4 || offset > len - 4 {
        return false;
    }
    assert((color >> 16) & 0xff <= 0xff && (color >> 8) & 0xff <= 0xff && color & 0xff <= 0xff)
        by (bit_vector);
    let red: u8 = ((color >> 16) & 0xff) as u8;
    let green: u8 = ((color >> 8) & 0xff) as u8;
    let blue: u8 = (color & 0xff) as u8;
    let ghost before = bytes@;
    match fb.pixel_format {
        FramebufferPixelFormat::XRGB8888 => {
            bytes[offset] = 0;
            bytes[offset + 1] = red;
            bytes[offset + 2] = green;
            bytes[offset + 3] = blue;
        },
        FramebufferPixelFormat::BGRX8888 => {
            bytes[offset] = blue;
            bytes[offset + 1] = green;
            bytes[offset + 2] = red;
            bytes[offset + 3] = 0;
        },
    }
    proof {
        assert(bytes@ =~= pixel_put(*fb, before, x as int, y as int, color));
    }
    true
}

/// The bytes after `clear`: the first `rows` rows of the framebuffer, and
/// in each row after them the first `cols` pixels, are black.
pub open spec fn blacked(fb: FramebufferInfo, bytes: Seq<u8>, rows: nat, cols: nat) -> Seq<u8>
    decreases rows, cols,
{
    if cols > 0 {
        pixel_put(fb, blacked(fb, bytes, rows, (cols - 1) as nat), cols - 1, rows as int, 0)
    } else if rows > 0 {
        blacked(fb, bytes, (rows - 1) as nat, fb.width as nat)
    } else {
        bytes
    }
}

/// Clears the framebuffer to black: every pixel of every row, as far as it
/// lies inside the bytes given. In the layouts that the loader draws on, a
/// black pixel is four zero bytes.
pub fn clear(fb: &FramebufferInfo, bytes: &mut [u8])
    ensures
        final(bytes)@.len() == old(bytes)@.len(),
        final(bytes)@ == blacked(*fb, old(bytes)@, fb.height as nat, 0),
{
    let mut y: usize = 0;
    while y < fb.height
        invariant
            y <= fb.height,
            bytes@.len() == old(bytes)@.len(),
            bytes@ == blacked(*fb, old(bytes)@, y as nat, 0),
        decreases fb.height - y,
    {
        let mut x: usize = 0;
        while x < fb.width
            invariant
                x <= fb.width,
                y < fb.height,
                bytes@.len() == old(bytes)@.len(),
                bytes@ == blacked(*fb, old(bytes)@, y as nat, x as nat),
            decreases fb.width - x,
        {
            let _ = put_pixel(fb, bytes, x, y, 0);
            x = x + 1;
        }
        y = y + 1;
    }
}

/// The glyph that the `spleen-font` crate yields from its font of 8 by 16
/// pixels for the character with the code `ch`: its rows in the order in
/// which they come, each row as its pixels in the order in which they come;
/// `None` where it yields none.
pub uninterp spec fn spleen_glyph(ch: u8) -> Option<Seq<Seq<bool>>>;

/// Looks the glyph of an ASCII character up in the Spleen font of 8 by 16
/// pixels, by way of `spleen_font::PSF2Font::new` on `FONT_8X16` and
/// `PSF2Font::glyph_for_utf8`, and copies it out pixel by pixel. For a single
/// byte below 0x80 the lookup is by the code of the character alone.
#[verifier::external_body]
fn glyph_rows(ch: u8) -> (r: Option<Vec<Vec<bool>>>)
    requires
        ch < 0x80,
    ensures
        r matches Some(rows) ==> spleen_glyph(ch) == Some(rows.deep_view()),
        r is None ==> spleen_glyph(ch) is None,
{
    let mut font = spleen_font::PSF2Font::new(spleen_font::FONT_8X16).ok()?;
    let glyph = font.glyph_for_utf8(&[ch])?;
    Some(glyph.map(|row| row.collect()).collect())
}

/// The bytes after the first `n` pixels of a glyph row were drawn from
/// `(px, y)` to the right: white where the glyph is set, black where not.
pub open spec fn cols_painted(
    fb: FramebufferInfo,
    bytes: Seq<u8>,
    row: Seq<bool>,
    px: int,
    y: int,
    n: nat,
) -> Seq<u8>
    decreases n,
{
    if n == 0 {
        bytes
    } else {
        pixel_put(
            fb,
            cols_painted(fb, bytes, row, px, y, (n - 1) as nat),
            px + (n - 1),
            y,
            if row[n - 1] {
                FOREGROUND
            } else {
                BACKGROUND
            },
        )
    }
}

/// The bytes after the first `m` rows of a glyph were drawn from
/// `(px, py)` downwards.
pub open spec fn rows_painted(
    fb: FramebufferInfo,
    bytes: Seq<u8>,
    rows: Seq<Seq<bool>>,
    px: int,
    py: int,
    m: nat,
) -> Seq<u8>
    decreases m,
{
    if m == 0 {
        bytes
    } else {
        cols_painted(
            fb,
            rows_painted(fb, bytes, rows, px, py, (m - 1) as nat),
            rows[m - 1],
            px,
            py + (m - 1),
            rows[m - 1].len(),
        )
    }
}

/// Draws a glyph, given row by row and pixel by pixel, into the cell
/// `(cx, cy)`: white where the glyph is set, black where not. Pixels that
/// do not lie inside the bytes given are not written.
pub fn draw_glyph_rows(
    fb: &FramebufferInfo,
    bytes: &mut [u8],
    rows: &Vec<Vec<bool>>,
    cx: usize,
    cy: usize,
)
    ensures
        final(bytes)@.len() == old(bytes)@.len(),
        final(bytes)@ == rows_painted(
            *fb,
            old(bytes)@,
            rows.deep_view(),
            cx * FONT_W,
            cy * FONT_H,
            rows@.len(),
        ),
{
    let ghost px = cx * FONT_W;
    let ghost py = cy * FONT_H;
    let ghost glyph = rows.deep_view();
    let count: usize = rows.len();
    let mut row_y: usize = 0;
    while row_y < count
        invariant
            row_y <= count,
            count == rows@.len(),
            glyph == rows.deep_view(),
            px == cx * FONT_W,
            py == cy * FONT_H,
            bytes@.len() == old(bytes)@.len(),
            bytes@ == rows_painted(*fb, old(bytes)@, glyph, px, py, row_y as nat),
        decreases count - row_y,
    {
        let row = &rows[row_y];
        let width: usize = row.len();
        let ghost at_row = bytes@;
        proof {
            assert(glyph[row_y as int] == row.deep_view());
            assert(row.deep_view() =~= row@);
        }
        let mut col_x: usize = 0;
        while col_x < width
            invariant
                col_x <= width,
                width == row@.len(),
                px == cx * FONT_W,
                py == cy * FONT_H,
                bytes@.len() == old(bytes)@.len(),
                bytes@ == cols_painted(*fb, at_row, row@, px, py + row_y, col_x as nat),
            decreases width - col_x,
        {
            let color: u32 = if row[col_x] {
                FOREGROUND
            } else {
                BACKGROUND
            };
            let ghost before = bytes@;
            let x: Option<usize> = match cx.checked_mul(FONT_W) {
                None => None,
                Some(base) => base.checked_add(col_x),
            };
            let y: Option<usize> = match cy.checked_mul(FONT_H) {
                None => None,
                Some(base) => base.checked_add(row_y),
            };
            match (x, y) {
                (Some(x), Some(y)) => {
                    let _ = put_pixel(fb, bytes, x, y, color);
                },
                _ => {},
            }
            col_x = col_x + 1;
        }
        row_y = row_y + 1;
    }
}

/// The bytes after `draw_char`: the glyph of an ASCII character that the
/// font has is drawn, and nothing else is.
pub open spec fn char_drawn(
    fb: FramebufferInfo,
    bytes: Seq<u8>,
    ch: u8,
    cx: usize,
    cy: usize,
) -> Seq<u8> {
    if ch >= 0x80 {
        bytes
    } else {
        match spleen_glyph(ch) {
            None => bytes,
            Some(rows) => rows_painted(fb, bytes, rows, cx * FONT_W, cy * FONT_H, rows.len()),
        }
    }
}

/// Draws a character into the cell `(cx, cy)`.
pub fn draw_char(fb: &FramebufferInfo, bytes: &mut [u8], ch: u8, cx: usize, cy: usize)
    ensures
        final(bytes)@.len() == old(bytes)@.len(),
        final(bytes)@ == char_drawn(*fb, old(bytes)@, ch, cx, cy),
{
    if ch >= 0x80 {
        return ;
    }
    if let Some(rows) = glyph_rows(ch) {
        draw_glyph_rows(fb, bytes, &rows, cx, cy);
    }
}

/// The cell that the next character of the loader's output goes to.
#[derive(Clone, Copy, Debug, PartialEq, Eq, Structural)]
pub struct TextCursor {
    pub x: usize,
    pub y: usize,
}

/// Columns and rows of cells that a framebuffer has.
pub open spec fn grid(fb: FramebufferInfo) -> (usize, usize) {
    ((fb.width / 8) as usize, (fb.height / 16) as usize)
}

/// `n + 1`, capped at the largest `usize`.
pub open spec fn next_cell(n: usize) -> usize {
    if n < usize::MAX {
        (n + 1) as usize
    } else {
        n
    }
}

/// The cursor and the bytes after one byte of a message: a line feed
/// starts a new row; any other byte is drawn, where the cursor is on the
/// grid, and moves the cursor on. A cursor past the last column goes to the
/// next row, and a cursor past the last row stays in the last row.
pub open spec fn byte_written(
    fb: FramebufferInfo,
    cursor: TextCursor,
    bytes: Seq<u8>,
    byte: u8,
) -> (
    TextCursor,
    Seq<u8>,
) {
    let (cols, rows) = grid(fb);
    let (moved, drawn) = if byte == 0x0a {
        (TextCursor { x: 0, y: next_cell(cursor.y) }, bytes)
    } else {
        (
            TextCursor { x: next_cell(cursor.x), y: cursor.y },
            if cursor.x < cols && cursor.y < rows {
                char_drawn(fb, bytes, byte, cursor.x, cursor.y)
            } else {
                bytes
            },
        )
    };
    let wrapped = if moved.x >= cols {
        TextCursor { x: 0, y: next_cell(moved.y) }
    } else {
        moved
    };
    (
        if wrapped.y >= rows {
            TextCursor { x: wrapped.x, y: (rows - 1) as usize }
        } else {
            wrapped
        },
        drawn,
    )
}

/// The cursor and the bytes after the bytes of a message.
pub open spec fn bytes_written(
    fb: FramebufferInfo,
    cursor: TextCursor,
    bytes: Seq<u8>,
    message: Seq<u8>,
) -> (
    TextCursor,
    Seq<u8>,
)
    decreases message.len(),
{
    if message.len() == 0 {
        (cursor, bytes)
    } else {
        let (at, drawn) = bytes_written(fb, cursor, bytes, message.drop_last());
        byte_written(fb, at, drawn, message.last())
    }
}

/// Writes a message at the cursor and moves the cursor to the start of the
/// row after it. The framebuffer must have room for a row of cells.
pub fn write_line(fb: &FramebufferInfo, bytes: &mut [u8], cursor: &mut TextCursor, message: &[u8])
    requires
        fb.height >= FONT_H,
    ensures
        final(bytes)@.len() == old(bytes)@.len(),
        final(bytes)@ == bytes_written(*fb, *old(cursor), old(bytes)@, message@).1,
        final(cursor).x == 0,
        final(cursor).y == next_cell(
            bytes_written(*fb, *old(cursor), old(bytes)@, message@).0.y,
        ),
{
    let max_cols: usize = fb.width / FONT_W;
    let max_rows: usize = fb.height / FONT_H;
    let n: usize = message.len();
    let mut i: usize = 0;
    proof {
        assert(message@.take(0) =~= Seq::<u8>::empty());
    }
    while i < n
        invariant
            i <= n,
            n == message@.len(),
            max_cols == grid(*fb).0,
            max_rows == grid(*fb).1,
            max_rows >= 1,
            bytes@.len() == old(bytes)@.len(),
            (*cursor, bytes@) == bytes_written(
                *fb,
                *old(cursor),
                old(bytes)@,
                message@.take(i as int),
            ),
        decreases n - i,
    {
        proof {
            assert(message@.take(i as int + 1).drop_last() =~= message@.take(i as int));
            assert(message@.take(i as int + 1).last() == message@[i as int]);
        }
        let byte: u8 = message[i];
        if byte == 0x0a {
            cursor.x = 0;
            cursor.y = step(cursor.y);
        } else {
            if cursor.x < max_cols && cursor.y < max_rows {
                draw_char(fb, bytes, byte, cursor.x, cursor.y);
            }
            cursor.x = step(cursor.x);
        }
        if cursor.x >= max_cols {
            cursor.x = 0;
            cursor.y = step(cursor.y);
        }
        if cursor.y >= max_rows {
            cursor.y = max_rows - 1;
        }
        i = i + 1;
    }
    proof {
        assert(message@.take(n as int) =~= message@);
    }
    cursor.x = 0;
    cursor.y = step(cursor.y);
}

/// The next cell in a row or a column.
fn step(n: usize) -> (r: usize)
    ensures
        r == next_cell(n),
{
    if n < usize::MAX {
        n + 1
    } else {
        n
    }
}

} // verus!
