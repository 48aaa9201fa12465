//! The built-in bitmap font of early diagnostics: capitals, digits and
//! punctuation, eight pixels wide and sixteen high. Small letters are drawn
//! as capitals, and whatever the font lacks is drawn as a question mark.

use vstd::prelude::*;

verus! {

/// Width of a glyph in pixels.
pub const FONT_WIDTH: usize = 8;

/// Height of a glyph in pixels.
pub const FONT_HEIGHT: usize = 16;

/// Rows in which a glyph is kept; each is drawn twice.
pub const GLYPH_ROWS: usize = 8;

/// The glyph that stands for every byte without a glyph of its own.
pub const FALLBACK: u8 = 0x3f;

/// The glyphs of the bytes 0 to 127, eight rows each, top row first. In a
/// row the highest bit is the leftmost pixel.
pub const FONT_ROWS: [u8; 1024] = [
    0x3c, 0x66, 0x06, 0x0c, 0x18, 0x00, 0x18, 0x00,
    0x3c, 0x66, 0x06, 0x0c, 0x18, 0x00, 0x18, 0x00,
    0x3c, 0x66, 0x06, 0x0c, 0x18, 0x00, 0x18, 0x00,
    0x3c, 0x66, 0x06, 0x0c, 0x18, 0x00, 0x18, 0x00,
    0x3c, 0x66, 0x06, 0x0c, 0x18, 0x00, 0x18, 0x00,
    0x3c, 0x66, 0x06, 0x0c, 0x18, 0x00, 0x18, 0x00,
    0x3c, 0x66, 0x06, 0x0c, 0x18, 0x00, 0x18, 0x00,
    0x3c, 0x66, 0x06, 0x0c, 0x18, 0x00, 0x18, 0x00,
    0x3c, 0x66, 0x06, 0x0c, 0x18, 0x00, 0x18, 0x00,
    0x3c, 0x66, 0x06, 0x0c, 0x18, 0x00, 0x18, 0x00,
    0x3c, 0x66, 0x06, 0x0c, 0x18, 0x00, 0x18, 0x00,
    0x3c, 0x66, 0x06, 0x0c, 0x18, 0x00, 0x18, 0x00,
    0x3c, 0x66, 0x06, 0x0c, 0x18, 0x00, 0x18, 0x00,
    0x3c, 0x66, 0x06, 0x0c, 0x18, 0x00, 0x18, 0x00,
    0x3c, 0x66, 0x06, 0x0c, 0x18, 0x00, 0x18, 0x00,
    0x3c, 0x66, 0x06, 0x0c, 0x18, 0x00, 0x18, 0x00,
    0x3c, 0x66, 0x06, 0x0c, 0x18, 0x00, 0x18, 0x00,
    0x3c, 0x66, 0x06, 0x0c, 0x18, 0x00, 0x18, 0x00,
    0x3c, 0x66, 0x06, 0x0c, 0x18, 0x00, 0x18, 0x00,
    0x3c, 0x66, 0x06, 0x0c, 0x18, 0x00, 0x18, 0x00,
    0x3c, 0x66, 0x06, 0x0c, 0x18, 0x00, 0x18, 0x00,
    0x3c, 0x66, 0x06, 0x0c, 0x18, 0x00, 0x18, 0x00,
    0x3c, 0x66, 0x06, 0x0c, 0x18, 0x00, 0x18, 0x00,
    0x3c, 0x66, 0x06, 0x0c, 0x18, 0x00, 0x18, 0x00,
    0x3c, 0x66, 0x06, 0x0c, 0x18, 0x00, 0x18, 0x00,
    0x3c, 0x66, 0x06, 0x0c, 0x18, 0x00, 0x18, 0x00,
    0x3c, 0x66, 0x06, 0x0c, 0x18, 0x00, 0x18, 0x00,
    0x3c, 0x66, 0x06, 0x0c, 0x18, 0x00, 0x18, 0x00,
    0x3c, 0x66, 0x06, 0x0c, 0x18, 0x00, 0x18, 0x00,
    0x3c, 0x66, 0x06, 0x0c, 0x18, 0x00, 0x18, 0x00,
    0x3c, 0x66, 0x06, 0x0c, 0x18, 0x00, 0x18, 0x00,
    0x3c, 0x66, 0x06, 0x0c, 0x18, 0x00, 0x18, 0x00,
    0x00, 0x00, 0x00, 0x00, 0x00, 0x00, 0x00, 0x00,
    0x18, 0x18, 0x18, 0x18, 0x18, 0x00, 0x18, 0x00,
    0x36, 0x36, 0x36, 0x00, 0x00, 0x00, 0x00, 0x00,
    0x24, 0x24, 0x7e, 0x24, 0x24, 0x7e, 0x24, 0x24,
    0x08, 0x3e, 0x48, 0x3c, 0x0a, 0x7c, 0x08, 0x00,
    0x62, 0x64, 0x08, 0x10, 0x20, 0x46, 0x86, 0x00,
    0x38, 0x44, 0x44, 0x38, 0x4a, 0x44, 0x3a, 0x00,
    0x18, 0x18, 0x18, 0x00, 0x00, 0x00, 0x00, 0x00,
    0x0e, 0x18, 0x30, 0x30, 0x30, 0x18, 0x0e, 0x00,
    0x70, 0x30, 0x18, 0x18, 0x18, 0x30, 0x70, 0x00,
    0x00, 0x28, 0x10, 0x7e, 0x10, 0x28, 0x00, 0x00,
    0x00, 0x10, 0x10, 0x7e, 0x10, 0x10, 0x00, 0x00,
    0x00, 0x00, 0x00, 0x00, 0x00, 0x18, 0x18, 0x30,
    0x00, 0x00, 0x00, 0x7e, 0x00, 0x00, 0x00, 0x00,
    0x00, 0x00, 0x00, 0x00, 0x00, 0x00, 0x18, 0x18,
    0x02, 0x04, 0x08, 0x10, 0x20, 0x40, 0x80, 0x00,
    0x3c, 0x66, 0x66, 0x66, 0x66, 0x66, 0x66, 0x3c,
    0x18, 0x38, 0x18, 0x18, 0x18, 0x18, 0x18, 0x3c,
    0x3c, 0x66, 0x06, 0x0c, 0x18, 0x30, 0x60, 0x7e,
    0x3c, 0x66, 0x06, 0x1c, 0x06, 0x06, 0x66, 0x3c,
    0x0c, 0x1c, 0x2c, 0x4c, 0x7e, 0x0c, 0x0c, 0x0c,
    0x7e, 0x60, 0x60, 0x7c, 0x06, 0x06, 0x66, 0x3c,
    0x3c, 0x60, 0x60, 0x7c, 0x66, 0x66, 0x66, 0x3c,
    0x7e, 0x06, 0x0c, 0x18, 0x30, 0x30, 0x30, 0x30,
    0x3c, 0x66, 0x66, 0x3c, 0x66, 0x66, 0x66, 0x3c,
    0x3c, 0x66, 0x66, 0x3e, 0x06, 0x06, 0x66, 0x3c,
    0x00, 0x18, 0x18, 0x00, 0x00, 0x18, 0x18, 0x00,
    0x00, 0x18, 0x18, 0x00, 0x00, 0x18, 0x18, 0x30,
    0x06, 0x0c, 0x18, 0x30, 0x18, 0x0c, 0x06, 0x00,
    0x00, 0x00, 0x7e, 0x00, 0x7e, 0x00, 0x00, 0x00,
    0x60, 0x30, 0x18, 0x0c, 0x18, 0x30, 0x60, 0x00,
    0x3c, 0x66, 0x06, 0x0c, 0x18, 0x00, 0x18, 0x00,
    0x3c, 0x42, 0xb9, 0xa9, 0xbd, 0x9e, 0x40, 0x3c,
    0x18, 0x3c, 0x66, 0x66, 0x7e, 0x66, 0x66, 0x66,
    0x7c, 0x66, 0x66, 0x7c, 0x66, 0x66, 0x66, 0x7c,
    0x3c, 0x66, 0x60, 0x60, 0x60, 0x60, 0x66, 0x3c,
    0x78, 0x6c, 0x66, 0x66, 0x66, 0x66, 0x6c, 0x78,
    0x7e, 0x60, 0x60, 0x7c, 0x60, 0x60, 0x60, 0x7e,
    0x7e, 0x60, 0x60, 0x7c, 0x60, 0x60, 0x60, 0x60,
    0x3c, 0x66, 0x60, 0x6e, 0x66, 0x66, 0x66, 0x3c,
    0x66, 0x66, 0x66, 0x7e, 0x66, 0x66, 0x66, 0x66,
    0x3c, 0x18, 0x18, 0x18, 0x18, 0x18, 0x18, 0x3c,
    0x1e, 0x06, 0x06, 0x06, 0x06, 0x66, 0x66, 0x3c,
    0x66, 0x6c, 0x78, 0x70, 0x78, 0x6c, 0x66, 0x66,
    0x60, 0x60, 0x60, 0x60, 0x60, 0x60, 0x60, 0x7e,
    0x66, 0x7e, 0x7e, 0x66, 0x66, 0x66, 0x66, 0x66,
    0x66, 0x76, 0x7e, 0x6e, 0x66, 0x66, 0x66, 0x66,
    0x3c, 0x66, 0x66, 0x66, 0x66, 0x66, 0x66, 0x3c,
    0x7c, 0x66, 0x66, 0x7c, 0x60, 0x60, 0x60, 0x60,
    0x3c, 0x66, 0x66, 0x66, 0x66, 0x6e, 0x3c, 0x0e,
    0x7c, 0x66, 0x66, 0x7c, 0x6c, 0x66, 0x66, 0x66,
    0x3c, 0x66, 0x60, 0x3c, 0x06, 0x06, 0x66, 0x3c,
    0x7e, 0x18, 0x18, 0x18, 0x18, 0x18, 0x18, 0x18,
    0x66, 0x66, 0x66, 0x66, 0x66, 0x66, 0x66, 0x3c,
    0x66, 0x66, 0x66, 0x3c, 0x3c, 0x3c, 0x18, 0x18,
    0x66, 0x66, 0x66, 0x66, 0x7e, 0x7e, 0x66, 0x66,
    0x66, 0x66, 0x3c, 0x18, 0x3c, 0x66, 0x66, 0x66,
    0x66, 0x66, 0x3c, 0x18, 0x18, 0x18, 0x18, 0x18,
    0x7e, 0x06, 0x0c, 0x18, 0x30, 0x60, 0x7e, 0x7e,
    0x1e, 0x18, 0x18, 0x18, 0x18, 0x18, 0x18, 0x1e,
    0x80, 0x40, 0x20, 0x10, 0x08, 0x04, 0x02, 0x00,
    0x1e, 0x06, 0x06, 0x06, 0x06, 0x06, 0x06, 0x1e,
    0x10, 0x28, 0x44, 0x00, 0x00, 0x00, 0x00, 0x00,
    0x00, 0x00, 0x00, 0x00, 0x00, 0x00, 0x7e, 0x00,
    0x3c, 0x66, 0x06, 0x0c, 0x18, 0x00, 0x18, 0x00,
    0x18, 0x3c, 0x66, 0x66, 0x7e, 0x66, 0x66, 0x66,
    0x7c, 0x66, 0x66, 0x7c, 0x66, 0x66, 0x66, 0x7c,
    0x3c, 0x66, 0x60, 0x60, 0x60, 0x60, 0x66, 0x3c,
    0x78, 0x6c, 0x66, 0x66, 0x66, 0x66, 0x6c, 0x78,
    0x7e, 0x60, 0x60, 0x7c, 0x60, 0x60, 0x60, 0x7e,
    0x7e, 0x60, 0x60, 0x7c, 0x60, 0x60, 0x60, 0x60,
    0x3c, 0x66, 0x60, 0x6e, 0x66, 0x66, 0x66, 0x3c,
    0x66, 0x66, 0x66, 0x7e, 0x66, 0x66, 0x66, 0x66,
    0x3c, 0x18, 0x18, 0x18, 0x18, 0x18, 0x18, 0x3c,
    0x1e, 0x06, 0x06, 0x06, 0x06, 0x66, 0x66, 0x3c,
    0x66, 0x6c, 0x78, 0x70, 0x78, 0x6c, 0x66, 0x66,
    0x60, 0x60, 0x60, 0x60, 0x60, 0x60, 0x60, 0x7e,
    0x66, 0x7e, 0x7e, 0x66, 0x66, 0x66, 0x66, 0x66,
    0x66, 0x76, 0x7e, 0x6e, 0x66, 0x66, 0x66, 0x66,
    0x3c, 0x66, 0x66, 0x66, 0x66, 0x66, 0x66, 0x3c,
    0x7c, 0x66, 0x66, 0x7c, 0x60, 0x60, 0x60, 0x60,
    0x3c, 0x66, 0x66, 0x66, 0x66, 0x6e, 0x3c, 0x0e,
    0x7c, 0x66, 0x66, 0x7c, 0x6c, 0x66, 0x66, 0x66,
    0x3c, 0x66, 0x60, 0x3c, 0x06, 0x06, 0x66, 0x3c,
    0x7e, 0x18, 0x18, 0x18, 0x18, 0x18, 0x18, 0x18,
    0x66, 0x66, 0x66, 0x66, 0x66, 0x66, 0x66, 0x3c,
    0x66, 0x66, 0x66, 0x3c, 0x3c, 0x3c, 0x18, 0x18,
    0x66, 0x66, 0x66, 0x66, 0x7e, 0x7e, 0x66, 0x66,
    0x66, 0x66, 0x3c, 0x18, 0x3c, 0x66, 0x66, 0x66,
    0x66, 0x66, 0x3c, 0x18, 0x18, 0x18, 0x18, 0x18,
    0x7e, 0x06, 0x0c, 0x18, 0x30, 0x60, 0x7e, 0x7e,
    0x3c, 0x66, 0x06, 0x0c, 0x18, 0x00, 0x18, 0x00,
    0x18, 0x18, 0x18, 0x18, 0x18, 0x18, 0x18, 0x18,
    0x3c, 0x66, 0x06, 0x0c, 0x18, 0x00, 0x18, 0x00,
    0x3c, 0x66, 0x06, 0x0c, 0x18, 0x00, 0x18, 0x00,
    0x3c, 0x66, 0x06, 0x0c, 0x18, 0x00, 0x18, 0x00,
];

/// The byte whose glyph is drawn for `byte`.
pub open spec fn glyph_index(byte: u8) -> int {
    if byte < 128 {
        byte as int
    } else {
        FALLBACK as int
    }
}

/// Row `row`, of sixteen, of the glyph that is drawn for `byte`.
pub open spec fn glyph_row(byte: u8, row: int) -> u8 {
    FONT_ROWS[glyph_index(byte) * 8 + row / 2]
}

/// Whether the pixel in row `row` and column `col` of the glyph for `byte`
/// is set.
pub open spec fn glyph_bit(byte: u8, row: int, col: int) -> bool {
    (glyph_row(byte, row) >> ((7 - col) as u8)) & 1 == 1
}

/// Each of eight rows twice.
pub fn double_rows(rows: [u8; 8]) -> (r: [u8; 16])
    ensures
        forall|i: int| 0 <= i < 16 ==> #[trigger] r[i] == rows[i / 2],
{
    let mut out: [u8; 16] = [0u8; 16];
    let mut i: usize = 0;
    while i < 8
        invariant
            i <= 8,
            forall|j: int| 0 <= j < 2 * i ==> #[trigger] out[j] == rows[j / 2],
        decreases 8 - i,
    {
        out[i * 2] = rows[i];
        out[i * 2 + 1] = rows[i];
        i = i + 1;
    }
    out
}

/// The sixteen rows of the glyph that is drawn for `byte`.
pub fn glyph_for(byte: u8) -> (r: [u8; 16])
    ensures
        forall|i: int| 0 <= i < 16 ==> #[trigger] r[i] == glyph_row(byte, i),
{
    let index: usize = if byte < 128 {
        byte as usize
    } else {
        FALLBACK as usize
    };
    let base: usize = index * GLYPH_ROWS;
    let rows: [u8; 8] = [
        FONT_ROWS[base],
        FONT_ROWS[base + 1],
        FONT_ROWS[base + 2],
        FONT_ROWS[base + 3],
        FONT_ROWS[base + 4],
        FONT_ROWS[base + 5],
        FONT_ROWS[base + 6],
        FONT_ROWS[base + 7],
    ];
    double_rows(rows)
}

} // verus!
