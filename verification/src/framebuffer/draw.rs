//! Pixels, rectangles and glyphs. Every write goes through the slice of
//! pixels that stands for the framebuffer, and none goes past its end.

use vstd::prelude::*;
use vstd::arithmetic::div_mod::{lemma_fundamental_div_mod, lemma_fundamental_div_mod_converse};
use crate::abi::{Framebuffer, PixelFormat};
use crate::framebuffer::font::{glyph_bit, glyph_for, glyph_row, FONT_HEIGHT, FONT_WIDTH};

verus! {

/// A color by its red, green and blue parts.
#[derive(Clone, Copy, Debug, PartialEq, Eq, Structural)]
pub struct FramebufferColor {
    pub r: u8,
    pub g: u8,
    pub b: u8,
}

impl FramebufferColor {
    /// The parts of the color: red, green, blue.
    pub open spec fn parts(self) -> (u8, u8, u8) {
        (self.r, self.g, self.b)
    }

    pub fn new(r: u8, g: u8, b: u8) -> (c: Self)
        ensures
            c.parts() == (r, g, b),
    {
        FramebufferColor { r, g, b }
    }

    /// Black.
    pub open spec fn spec_black() -> Self {
        FramebufferColor { r: 0, g: 0, b: 0 }
    }

    /// White.
    pub open spec fn spec_white() -> Self {
        FramebufferColor { r: 0xff, g: 0xff, b: 0xff }
    }

    pub fn black() -> (c: Self)
        ensures
            c == Self::spec_black(),
            c.parts() == (0u8, 0u8, 0u8),
    {
        FramebufferColor { r: 0, g: 0, b: 0 }
    }

    pub fn white() -> (c: Self)
        ensures
            c == Self::spec_white(),
            c.parts() == (0xffu8, 0xffu8, 0xffu8),
    {
        FramebufferColor { r: 0xff, g: 0xff, b: 0xff }
    }

    /// Red, green and blue.
    pub fn components(self) -> (r: (u8, u8, u8))
        ensures
            r == self.parts(),
    {
        (self.r, self.g, self.b)
    }
}

/// The geometry of the framebuffer: where it lies, how many pixels a
/// scanline takes in memory (`pitch`), how many of them show, how many
/// scanlines there are, and the byte order of a pixel.
#[derive(Clone, Copy, Debug, PartialEq, Eq, Structural)]
pub struct FramebufferSurface {
    pub base_address: u64,
    pub pitch: usize,
    pub width: usize,
    pub height: usize,
    pub pixel_format: PixelFormat,
}

/// The surface that a framebuffer record describes.
pub open spec fn surface_of(fb: Framebuffer) -> FramebufferSurface {
    FramebufferSurface {
        base_address: fb.base_address,
        pitch: fb.pixels_per_scanline as usize,
        width: fb.width as usize,
        height: fb.height as usize,
        pixel_format: fb.pixel_format,
    }
}

/// The surface without pixels.
pub open spec fn empty_surface() -> FramebufferSurface {
    FramebufferSurface {
        base_address: 0,
        pitch: 0,
        width: 0,
        height: 0,
        pixel_format: PixelFormat::Rgb,
    }
}

impl FramebufferSurface {
    /// The surface lies somewhere and has pixels.
    pub open spec fn usable(self) -> bool {
        self.base_address != 0 && self.pitch != 0 && self.width != 0 && self.height != 0
    }

    /// The surface of a framebuffer record, if it is usable.
    pub fn new(fb: Framebuffer) -> (r: Result<Self, ()>)
        ensures
            r == if surface_of(fb).usable() {
                Ok::<Self, ()>(surface_of(fb))
            } else {
                Err::<Self, ()>(())
            },
    {
        let surface = FramebufferSurface {
            base_address: fb.base_address,
            pitch: fb.pixels_per_scanline as usize,
            width: fb.width as usize,
            height: fb.height as usize,
            pixel_format: fb.pixel_format,
        };
        surface.validate()
    }

    /// A surface without pixels.
    pub fn empty() -> (r: Self)
        ensures
            r == empty_surface(),
    {
        FramebufferSurface {
            base_address: 0,
            pitch: 0,
            width: 0,
            height: 0,
            pixel_format: PixelFormat::Rgb,
        }
    }

    /// The surface itself if it is usable.
    pub fn validate(self) -> (r: Result<Self, ()>)
        ensures
            r == if self.usable() {
                Ok::<Self, ()>(self)
            } else {
                Err::<Self, ()>(())
            },
    {
        if self.base_address == 0 || self.pitch == 0 || self.width == 0 || self.height == 0 {
            return Err(());
        }
        Ok(self)
    }
}

/// The pixel of a color: in `Rgb` the lowest byte is red, in `Bgr` blue; the
/// highest byte is 0xff in both.
pub open spec fn encoded(format: PixelFormat, color: FramebufferColor) -> u32 {
    let (r, g, b) = color.parts();
    match format {
        PixelFormat::Rgb => (r + g * 0x100 + b * 0x1_0000 + 0xff00_0000) as u32,
        PixelFormat::Bgr => (b + g * 0x100 + r * 0x1_0000 + 0xff00_0000) as u32,
    }
}

/// Encodes a color as a pixel of the given format.
pub fn encode_pixel(format: PixelFormat, color: FramebufferColor) -> (r: u32)
    ensures
        r == encoded(format, color),
{
    let (r, g, b) = color.components();
    match format {
        PixelFormat::Rgb => (r as u32) + (g as u32) * 0x100 + (b as u32) * 0x1_0000 + 0xff00_0000,
        PixelFormat::Bgr => (b as u32) + (g as u32) * 0x100 + (r as u32) * 0x1_0000 + 0xff00_0000,
    }
}

/// Whether the pixel at index `idx` of a framebuffer with `pitch` pixels to
/// the scanline lies in the rectangle of `w` by `h` pixels at `(x, y)`.
#[verifier::opaque]
pub open spec fn in_rect(idx: int, pitch: int, x: int, y: int, w: int, h: int) -> bool {
    y <= idx / pitch < y + h && x <= idx % pitch < x + w
}

/// Whether the pixel at index `idx` lies in the rectangle of `w` by `h`
/// pixels at `(x, y)` and, with `(x, y)` as the top left corner of the glyph
/// of `byte`, on a pixel of the glyph that is set.
#[verifier::opaque]
pub open spec fn glyph_pixel(
    idx: int,
    pitch: int,
    x: int,
    y: int,
    w: int,
    h: int,
    byte: u8,
) -> bool {
    in_rect(idx, pitch, x, y, w, h) && glyph_bit(byte, idx / pitch - y, idx % pitch - x)
}

/// A rectangle that is higher by one scanline holds the pixels of that
/// scanline besides its own.
pub proof fn lemma_rect_grows(idx: int, pitch: int, x: int, y: int, w: int, h: int)
    requires
        pitch > 0,
        0 <= x,
        x + w <= pitch,
        0 <= y,
        0 <= h,
        0 <= idx,
    ensures
        in_rect(idx, pitch, x, y, w, h + 1) <==> in_rect(idx, pitch, x, y, w, h) || ((y + h)
            * pitch + x <= idx < (y + h) * pitch + x + w),
        !in_rect(idx, pitch, x, y, w, 0),
{
    reveal(in_rect);
    lemma_row_span(idx, pitch, y + h, x, w);
}

/// The same for the pixels of a glyph.
pub proof fn lemma_glyph_grows(idx: int, pitch: int, x: int, y: int, w: int, h: int, byte: u8)
    requires
        pitch > 0,
        0 <= x,
        x + w <= pitch,
        0 <= y,
        0 <= h,
        0 <= idx,
    ensures
        glyph_pixel(idx, pitch, x, y, w, h + 1, byte) <==> glyph_pixel(idx, pitch, x, y, w, h, byte)
            || ((y + h) * pitch + x <= idx < (y + h) * pitch + x + w && glyph_bit(
            byte,
            h,
            idx - ((y + h) * pitch + x),
        )),
        !glyph_pixel(idx, pitch, x, y, w, 0, byte),
{
    reveal(in_rect);
    reveal(glyph_pixel);
    lemma_row_span(idx, pitch, y + h, x, w);
    let start = (y + h) * pitch + x;
    if start <= idx < start + w {
        lemma_fundamental_div_mod(idx, pitch);
        assert(pitch * (idx / pitch) == (y + h) * pitch) by (nonlinear_arith)
            requires
                idx / pitch == y + h,
        ;
    }
}

/// The pixels of one scanline from column `x`, `w` of them, are those
/// whose index lies in a run of `w` from `row * pitch + x`.
pub proof fn lemma_row_span(idx: int, pitch: int, row: int, x: int, w: int)
    requires
        pitch > 0,
        0 <= x,
        x + w <= pitch,
        0 <= row,
        0 <= idx,
    ensures
        (row * pitch + x <= idx < row * pitch + x + w) <==> (idx / pitch == row && x <= idx % pitch
            < x + w),
{
    if row * pitch + x <= idx < row * pitch + x + w {
        lemma_fundamental_div_mod_converse(idx, pitch, row, idx - row * pitch);
    }
    if idx / pitch == row && x <= idx % pitch < x + w {
        lemma_fundamental_div_mod(idx, pitch);
        assert(pitch * (idx / pitch) == row * pitch) by (nonlinear_arith)
            requires
                idx / pitch == row,
        ;
    }
}

/// Sets `count` pixels from index `start` to `pixel`.
pub fn fill_row(pixels: &mut [u32], start: usize, count: usize, pixel: u32)
    requires
        start + count <= old(pixels)@.len(),
    ensures
        final(pixels)@.len() == old(pixels)@.len(),
        forall|i: int|
            0 <= i < final(pixels)@.len() ==> #[trigger] final(pixels)@[i] == if start <= i < start
                + count {
                pixel
            } else {
                old(pixels)@[i]
            },
{
    let len: usize = pixels.len();
    let mut col: usize = 0;
    while col < count
        invariant
            col <= count,
            len == pixels@.len(),
            start + count <= pixels@.len(),
            pixels@.len() == old(pixels)@.len(),
            forall|i: int|
                0 <= i < pixels@.len() ==> #[trigger] pixels@[i] == if start <= i < start + col {
                    pixel
                } else {
                    old(pixels)@[i]
                },
        decreases count - col,
    {
        pixels[start + col] = pixel;
        col = col + 1;
    }
}

/// The part of a rectangle of `width` by `height` pixels at
/// `(origin_x, origin_y)` that shows on the surface: its width and height.
pub open spec fn clipped(
    surface: FramebufferSurface,
    origin_x: usize,
    origin_y: usize,
    width: usize,
    height: usize,
) -> (int, int) {
    let room_x = if surface.width - origin_x < surface.pitch - origin_x {
        surface.width - origin_x
    } else {
        surface.pitch - origin_x
    };
    let room_y = surface.height - origin_y;
    (
        if width < room_x {
            width as int
        } else {
            room_x
        },
        if height < room_y {
            height as int
        } else {
            room_y
        },
    )
}

/// Whether a rectangle can be drawn at `(origin_x, origin_y)`: the surface
/// is usable, the origin lies on it, and the framebuffer holds every
/// scanline that the clipped rectangle touches.
pub open spec fn drawable(
    surface: FramebufferSurface,
    len: int,
    origin_x: usize,
    origin_y: usize,
    width: usize,
    height: usize,
) -> bool {
    let (w, h) = clipped(surface, origin_x, origin_y, width, height);
    &&& surface.usable()
    &&& origin_x < surface.width
    &&& origin_y < surface.height
    &&& origin_x < surface.pitch
    &&& (origin_y + h - 1) * surface.pitch + origin_x + w <= len
}

/// The pixels after `fill_rect`.
pub open spec fn rect_filled(
    surface: FramebufferSurface,
    px: Seq<u32>,
    origin_x: usize,
    origin_y: usize,
    width: usize,
    height: usize,
    color: FramebufferColor,
) -> Seq<u32> {
    if width == 0 || height == 0 || !drawable(
        surface,
        px.len() as int,
        origin_x,
        origin_y,
        width,
        height,
    ) {
        px
    } else {
        let (w, h) = clipped(surface, origin_x, origin_y, width, height);
        Seq::new(
            px.len(),
            |i: int|
                if in_rect(i, surface.pitch as int, origin_x as int, origin_y as int, w, h) {
                    encoded(surface.pixel_format, color)
                } else {
                    px[i]
                },
        )
    }
}

/// The pixels after `draw_glyph`.
pub open spec fn glyph_drawn(
    surface: FramebufferSurface,
    px: Seq<u32>,
    start_x: usize,
    start_y: usize,
    byte: u8,
    color: FramebufferColor,
) -> Seq<u32> {
    if !drawable(surface, px.len() as int, start_x, start_y, FONT_WIDTH, FONT_HEIGHT) {
        px
    } else {
        let (w, h) = clipped(surface, start_x, start_y, FONT_WIDTH, FONT_HEIGHT);
        Seq::new(
            px.len(),
            |i: int|
                if glyph_pixel(
                    i,
                    surface.pitch as int,
                    start_x as int,
                    start_y as int,
                    w,
                    h,
                    byte,
                ) {
                    encoded(surface.pixel_format, color)
                } else {
                    px[i]
                },
        )
    }
}

/// The index past the last pixel of a clipped rectangle, if it fits in a
/// `usize`.
fn rect_end(
    pitch: usize,
    origin_x: usize,
    origin_y: usize,
    w: usize,
    h: usize,
) -> (r: Option<usize>)
    requires
        h >= 1,
    ensures
        r == if (origin_y + h - 1) * pitch + origin_x + w <= usize::MAX {
            Some(((origin_y + h - 1) * pitch + origin_x + w) as usize)
        } else {
            None
        },
{
    let last_row: usize = match origin_y.checked_add(h - 1) {
        None => {
            assert((origin_y + h - 1) * pitch >= usize::MAX + 1 || pitch == 0) by (nonlinear_arith)
                requires
                    origin_y + h - 1 >= usize::MAX + 1,
                    pitch >= 0,
            ;
            if pitch == 0 {
                assert((origin_y + h - 1) * pitch == 0) by (nonlinear_arith)
                    requires
                        pitch == 0,
                ;
                return origin_x.checked_add(w);
            }
            return None;
        },
        Some(r) => r,
    };
    let base: usize = match last_row.checked_mul(pitch) {
        None => {
            return None;
        },
        Some(b) => b,
    };
    let start: usize = match base.checked_add(origin_x) {
        None => {
            return None;
        },
        Some(s) => s,
    };
    start.checked_add(w)
}

/// Fills the part of a rectangle that shows on the surface with a color.
/// A rectangle without width or height is nothing to draw. Refused, with
/// no pixel written: an unusable surface, an origin off the surface, and a
/// rectangle that reaches past the end of the framebuffer.
pub fn fill_rect(
    surface: FramebufferSurface,
    pixels: &mut [u32],
    origin_x: usize,
    origin_y: usize,
    width: usize,
    height: usize,
    color: FramebufferColor,
) -> (r: Result<(), ()>)
    ensures
        final(pixels)@.len() == old(pixels)@.len(),
        !surface.usable() ==> r is Err,
        surface.usable() && (width == 0 || height == 0) ==> r is Ok,
        surface.usable() && width != 0 && height != 0 ==> (r is Ok <==> drawable(
            surface,
            old(pixels)@.len() as int,
            origin_x,
            origin_y,
            width,
            height,
        )),
        r is Err || width == 0 || height == 0 ==> final(pixels)@ == old(pixels)@,
        final(pixels)@ == rect_filled(
            surface,
            old(pixels)@,
            origin_x,
            origin_y,
            width,
            height,
            color,
        ),
        r is Ok && width != 0 && height != 0 ==> ({
            let (w, h) = clipped(surface, origin_x, origin_y, width, height);
            forall|i: int|
                0 <= i < final(pixels)@.len() ==> #[trigger] final(pixels)@[i] == if in_rect(
                    i,
                    surface.pitch as int,
                    origin_x as int,
                    origin_y as int,
                    w,
                    h,
                ) {
                    encoded(surface.pixel_format, color)
                } else {
                    old(pixels)@[i]
                }
        }),
{
    let surface = match surface.validate() {
        Err(_) => {
            return Err(());
        },
        Ok(s) => s,
    };
    if width == 0 || height == 0 {
        return Ok(());
    }
    if origin_x >= surface.width || origin_y >= surface.height {
        return Err(());
    }
    if origin_x >= surface.pitch {
        return Err(());
    }
    let room_w: usize = surface.width - origin_x;
    let room_p: usize = surface.pitch - origin_x;
    let max_width: usize = if room_w < room_p {
        room_w
    } else {
        room_p
    };
    let draw_width: usize = if width < max_width {
        width
    } else {
        max_width
    };
    let max_height: usize = surface.height - origin_y;
    let draw_height: usize = if height < max_height {
        height
    } else {
        max_height
    };
    if draw_width == 0 || draw_height == 0 {
        return Err(());
    }
    let len: usize = pixels.len();
    match rect_end(surface.pitch, origin_x, origin_y, draw_width, draw_height) {
        None => {
            return Err(());
        },
        Some(end) => {
            if end > len {
                return Err(());
            }
        },
    }
    let pixel: u32 = encode_pixel(surface.pixel_format, color);
    let pitch: usize = surface.pitch;
    let mut row: usize = 0;
    proof {
        assert forall|i: int| 0 <= i < pixels@.len() implies !in_rect(
            i,
            pitch as int,
            origin_x as int,
            origin_y as int,
            draw_width as int,
            0,
        ) by {
            lemma_rect_grows(i, pitch as int, origin_x as int, origin_y as int, draw_width as int,
                0);
        }
    }
    while row < draw_height
        invariant
            row <= draw_height,
            pitch > 0,
            origin_x + draw_width <= pitch,
            origin_y + draw_height <= usize::MAX,
            pixels@.len() == old(pixels)@.len(),
            len == pixels@.len(),
            (origin_y + draw_height - 1) * pitch + origin_x + draw_width <= len,
            forall|i: int|
                0 <= i < pixels@.len() ==> #[trigger] pixels@[i] == if in_rect(
                    i,
                    pitch as int,
                    origin_x as int,
                    origin_y as int,
                    draw_width as int,
                    row as int,
                ) {
                    pixel
                } else {
                    old(pixels)@[i]
                },
        decreases draw_height - row,
    {
        assert((origin_y + row) * pitch <= (origin_y + draw_height - 1) * pitch)
            by (nonlinear_arith)
            requires
                row <= draw_height - 1,
                pitch >= 0,
                origin_y >= 0,
        ;
        let start: usize = (origin_y + row) * pitch + origin_x;
        let ghost before = pixels@;
        fill_row(pixels, start, draw_width, pixel);
        proof {
            assert forall|i: int| 0 <= i < pixels@.len() implies #[trigger] pixels@[i]
                == if in_rect(
                i,
                pitch as int,
                origin_x as int,
                origin_y as int,
                draw_width as int,
                row as int + 1,
            ) {
                pixel
            } else {
                old(pixels)@[i]
            } by {
                lemma_rect_grows(
                    i,
                    pitch as int,
                    origin_x as int,
                    origin_y as int,
                    draw_width as int,
                    row as int,
                );
                assert(before[i] == if in_rect(
                    i,
                    pitch as int,
                    origin_x as int,
                    origin_y as int,
                    draw_width as int,
                    row as int,
                ) {
                    pixel
                } else {
                    old(pixels)@[i]
                });
            }
        }
        row = row + 1;
    }
    proof {
        assert(pixels@ =~= rect_filled(
            surface,
            old(pixels)@,
            origin_x,
            origin_y,
            width,
            height,
            color,
        ));
    }
    Ok(())
}

/// Draws the glyph of `byte` with its top left corner at
/// `(start_x, start_y)`: the pixels of the glyph that are set get the
/// color, the others are left as they are. The glyph is clipped to the
/// surface. Refused, with no pixel written: an unusable surface, a corner
/// off the surface, and a glyph that reaches past the end of the
/// framebuffer.
pub fn draw_glyph(
    surface: FramebufferSurface,
    pixels: &mut [u32],
    start_x: usize,
    start_y: usize,
    byte: u8,
    color: FramebufferColor,
) -> (r: Result<(), ()>)
    ensures
        final(pixels)@.len() == old(pixels)@.len(),
        r is Ok <==> drawable(
            surface,
            old(pixels)@.len() as int,
            start_x,
            start_y,
            FONT_WIDTH,
            FONT_HEIGHT,
        ),
        r is Err ==> final(pixels)@ == old(pixels)@,
        final(pixels)@ == glyph_drawn(surface, old(pixels)@, start_x, start_y, byte, color),
        r is Ok ==> ({
            let (w, h) = clipped(surface, start_x, start_y, FONT_WIDTH, FONT_HEIGHT);
            forall|i: int|
                0 <= i < final(pixels)@.len() ==> #[trigger] final(pixels)@[i] == if glyph_pixel(
                    i,
                    surface.pitch as int,
                    start_x as int,
                    start_y as int,
                    w,
                    h,
                    byte,
                ) {
                    encoded(surface.pixel_format, color)
                } else {
                    old(pixels)@[i]
                }
        }),
{
    let surface = match surface.validate() {
        Err(_) => {
            return Err(());
        },
        Ok(s) => s,
    };
    let pitch: usize = surface.pitch;
    let width: usize = surface.width;
    let height: usize = surface.height;
    if start_x >= width || start_y >= height {
        return Err(());
    }
    if start_x >= pitch {
        return Err(());
    }
    let glyph: [u8; 16] = glyph_for(byte);
    let room_w: usize = width - start_x;
    let room_p: usize = pitch - start_x;
    let max_width: usize = if room_w < room_p {
        room_w
    } else {
        room_p
    };
    let draw_width: usize = if FONT_WIDTH < max_width {
        FONT_WIDTH
    } else {
        max_width
    };
    let room_h: usize = height - start_y;
    let draw_height: usize = if FONT_HEIGHT < room_h {
        FONT_HEIGHT
    } else {
        room_h
    };
    if draw_width == 0 || draw_height == 0 {
        return Err(());
    }
    let len: usize = pixels.len();
    match rect_end(pitch, start_x, start_y, draw_width, draw_height) {
        None => {
            return Err(());
        },
        Some(end) => {
            if end > len {
                return Err(());
            }
        },
    }
    let pixel: u32 = encode_pixel(surface.pixel_format, color);
    let mut row: usize = 0;
    proof {
        assert forall|i: int| 0 <= i < pixels@.len() implies !glyph_pixel(
            i,
            pitch as int,
            start_x as int,
            start_y as int,
            draw_width as int,
            0,
            byte,
        ) by {
            lemma_glyph_grows(
                i,
                pitch as int,
                start_x as int,
                start_y as int,
                draw_width as int,
                0,
                byte,
            );
        }
    }
    while row < draw_height
        invariant
            row <= draw_height,
            draw_height <= FONT_HEIGHT,
            draw_width <= FONT_WIDTH,
            pitch > 0,
            start_x + draw_width <= pitch,
            start_y + draw_height <= usize::MAX,
            pixels@.len() == old(pixels)@.len(),
            len == pixels@.len(),
            (start_y + draw_height - 1) * pitch + start_x + draw_width <= len,
            forall|k: int| 0 <= k < 16 ==> #[trigger] glyph[k] == glyph_row(byte, k),
            forall|i: int|
                0 <= i < pixels@.len() ==> #[trigger] pixels@[i] == if glyph_pixel(
                    i,
                    pitch as int,
                    start_x as int,
                    start_y as int,
                    draw_width as int,
                    row as int,
                    byte,
                ) {
                    pixel
                } else {
                    old(pixels)@[i]
                },
        decreases draw_height - row,
    {
        assert((start_y + row) * pitch <= (start_y + draw_height - 1) * pitch) by (nonlinear_arith)
            requires
                row <= draw_height - 1,
                pitch >= 0,
                start_y >= 0,
        ;
        let start: usize = (start_y + row) * pitch + start_x;
        let bitmap_row: u8 = glyph[row];
        let ghost at_row = pixels@;
        let mut col: usize = 0;
        while col < draw_width
            invariant
                col <= draw_width,
                draw_width <= FONT_WIDTH,
                row < draw_height,
                pitch > 0,
                start_x + draw_width <= pitch,
                start == (start_y + row) * pitch + start_x,
                start + draw_width <= len,
                len == pixels@.len(),
                pixels@.len() == old(pixels)@.len(),
                bitmap_row == glyph_row(byte, row as int),
                forall|i: int|
                    0 <= i < pixels@.len() ==> #[trigger] pixels@[i] == if start <= i < start + col
                        && glyph_bit(byte, row as int, i - start) {
                        pixel
                    } else {
                        at_row[i]
                    },
            decreases draw_width - col,
        {
            let bit: u8 = (FONT_WIDTH - 1 - col) as u8;
            if (bitmap_row >> bit) & 1 == 1 {
                pixels[start + col] = pixel;
            }
            col = col + 1;
        }
        proof {
            assert forall|i: int| 0 <= i < pixels@.len() implies #[trigger] pixels@[i]
                == if glyph_pixel(
                i,
                pitch as int,
                start_x as int,
                start_y as int,
                draw_width as int,
                row as int + 1,
                byte,
            ) {
                pixel
            } else {
                old(pixels)@[i]
            } by {
                lemma_glyph_grows(
                    i,
                    pitch as int,
                    start_x as int,
                    start_y as int,
                    draw_width as int,
                    row as int,
                    byte,
                );
                assert(at_row[i] == if glyph_pixel(
                    i,
                    pitch as int,
                    start_x as int,
                    start_y as int,
                    draw_width as int,
                    row as int,
                    byte,
                ) {
                    pixel
                } else {
                    old(pixels)@[i]
                });
            }
        }
        row = row + 1;
    }
    proof {
        assert(pixels@ =~= glyph_drawn(surface, old(pixels)@, start_x, start_y, byte, color));
    }
    Ok(())
}

/// The rows and columns that `clear_black` clears: the rows of the surface
/// that lie wholly inside the framebuffer, and in each the pixels that show.
pub open spec fn cleared(fb: Framebuffer, len: int) -> (int, int) {
    let by_size = (fb.buffer_size / 4) as int;
    let room = if by_size < len {
        by_size
    } else {
        len
    };
    let rows = room / (fb.pixels_per_scanline as int);
    (
        if fb.height < rows {
            fb.height as int
        } else {
            rows
        },
        if fb.width < fb.pixels_per_scanline {
            fb.width as int
        } else {
            fb.pixels_per_scanline as int
        },
    )
}

/// Clears the framebuffer to black: every pixel that shows, in every row
/// that lies wholly inside the buffer as the record and the slice size it.
/// Refused, with no pixel written: an unusable framebuffer and one without
/// room for a single row.
pub fn clear_black(fb: &Framebuffer, pixels: &mut [u32]) -> (r: Result<(), ()>)
    ensures
        final(pixels)@.len() == old(pixels)@.len(),
        r is Ok <==> surface_of(*fb).usable() && cleared(*fb, old(pixels)@.len() as int).0 > 0,
        r is Err ==> final(pixels)@ == old(pixels)@,
        r is Ok ==> forall|i: int|
            0 <= i < final(pixels)@.len() ==> #[trigger] final(pixels)@[i] == if in_rect(
                i,
                fb.pixels_per_scanline as int,
                0,
                0,
                cleared(*fb, old(pixels)@.len() as int).1,
                cleared(*fb, old(pixels)@.len() as int).0,
            ) {
                0xff00_0000u32
            } else {
                old(pixels)@[i]
            },
{
    let surface = match FramebufferSurface::new(*fb) {
        Err(_) => {
            return Err(());
        },
        Ok(s) => s,
    };
    let len: usize = pixels.len();
    let by_size: u64 = fb.buffer_size / 4;
    let max_pixels: usize = if by_size < len as u64 {
        by_size as usize
    } else {
        len
    };
    if max_pixels == 0 {
        return Err(());
    }
    let max_rows: usize = max_pixels / surface.pitch;
    let clear_height: usize = if surface.height < max_rows {
        surface.height
    } else {
        max_rows
    };
    if clear_height == 0 {
        return Err(());
    }
    let row_width: usize = if surface.width < surface.pitch {
        surface.width
    } else {
        surface.pitch
    };
    if row_width == 0 {
        return Err(());
    }
    let color: u32 = encode_pixel(surface.pixel_format, FramebufferColor::black());
    let pitch: usize = surface.pitch;
    assert(clear_height * pitch <= len) by (nonlinear_arith)
        requires
            clear_height <= max_pixels / pitch,
            max_pixels <= len,
            pitch > 0,
    ;
    let mut y: usize = 0;
    proof {
        assert forall|i: int| 0 <= i < pixels@.len() implies !in_rect(
            i,
            pitch as int,
            0,
            0,
            row_width as int,
            0,
        ) by {
            lemma_rect_grows(i, pitch as int, 0, 0, row_width as int, 0);
        }
    }
    while y < clear_height
        invariant
            y <= clear_height,
            pitch > 0,
            row_width <= pitch,
            clear_height * pitch <= len,
            len == pixels@.len(),
            pixels@.len() == old(pixels)@.len(),
            forall|i: int|
                0 <= i < pixels@.len() ==> #[trigger] pixels@[i] == if in_rect(
                    i,
                    pitch as int,
                    0,
                    0,
                    row_width as int,
                    y as int,
                ) {
                    color
                } else {
                    old(pixels)@[i]
                },
        decreases clear_height - y,
    {
        assert(y * pitch + pitch <= clear_height * pitch) by (nonlinear_arith)
            requires
                y + 1 <= clear_height,
                pitch >= 0,
        ;
        let start: usize = y * pitch;
        let ghost before = pixels@;
        fill_row(pixels, start, row_width, color);
        proof {
            assert forall|i: int| 0 <= i < pixels@.len() implies #[trigger] pixels@[i]
                == if in_rect(
                i,
                pitch as int,
                0,
                0,
                row_width as int,
                y as int + 1,
            ) {
                color
            } else {
                old(pixels)@[i]
            } by {
                lemma_rect_grows(i, pitch as int, 0, 0, row_width as int, y as int);
                assert(before[i] == if in_rect(i, pitch as int, 0, 0, row_width as int, y as int) {
                    color
                } else {
                    old(pixels)@[i]
                });
            }
        }
        y = y + 1;
    }
    Ok(())
}

} // verus!
