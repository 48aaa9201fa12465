//! The text console on the framebuffer: a grid of glyph cells, a cursor,
//! and scrolling by one line when the grid is full.

use vstd::prelude::*;
use vstd::arithmetic::div_mod::lemma_fundamental_div_mod;
use crate::abi::Framebuffer;
use crate::framebuffer::draw::{
    clipped, draw_glyph, drawable, empty_surface, fill_rect, glyph_drawn, in_rect,
    lemma_rect_grows, rect_filled, surface_of, FramebufferColor, FramebufferSurface,
};
use crate::framebuffer::font::{FONT_HEIGHT, FONT_WIDTH};

verus! {

/// Scanlines left empty below each line of text.
pub const LINE_SPACING: usize = 4;

/// Scanlines from one line of text to the next.
pub const LINE_STRIDE: usize = 20;

/// What the console shows for a byte: small letters as capitals, the other
/// printable characters, line feed and carriage return as they are, a
/// space for a tabulator, and a question mark for everything else.
pub open spec fn sanitized(byte: u8) -> u8 {
    if 0x61 <= byte <= 0x7a {
        (byte - 0x20) as u8
    } else if 0x20 <= byte <= 0x7e {
        byte
    } else if byte == 0x0a || byte == 0x0d {
        byte
    } else if byte == 0x09 {
        0x20
    } else {
        0x3f
    }
}

/// Maps a byte to the byte that the console shows for it.
pub fn sanitize_byte(byte: u8) -> (r: u8)
    ensures
        r == sanitized(byte),
{
    if byte >= 0x61 && byte <= 0x7a {
        byte - 0x20
    } else if byte >= 0x20 && byte <= 0x7e {
        byte
    } else if byte == 0x0a || byte == 0x0d {
        byte
    } else if byte == 0x09 {
        0x20
    } else {
        0x3f
    }
}

/// The cell that the next character goes to.
#[derive(Clone, Copy, Debug, PartialEq, Eq, Structural)]
pub struct Cursor {
    pub col: usize,
    pub row: usize,
}

impl Default for Cursor {
    fn default() -> (r: Self)
        ensures
            r == (Cursor { col: 0, row: 0 }),
    {
        Cursor { col: 0, row: 0 }
    }
}

/// The grid of cells: where its top left corner lies on the surface, and
/// how many columns and rows it has.
#[derive(Clone, Copy, Debug, PartialEq, Eq, Structural)]
pub struct Viewport {
    pub origin_x: usize,
    pub origin_y: usize,
    pub cols: usize,
    pub rows: usize,
    pub line_stride: usize,
}

/// The grid that fits on a surface from the corner `(origin_x, origin_y)`:
/// a column for every eight pixels of width, and a row for every line of
/// text that fits, the last one without the spacing below it.
pub open spec fn viewport_of(
    surface: FramebufferSurface,
    origin_x: usize,
    origin_y: usize,
) -> Viewport {
    let width = if surface.width >= origin_x {
        surface.width - origin_x
    } else {
        0
    };
    let height = if surface.height >= origin_y {
        surface.height - origin_y
    } else {
        0
    };
    Viewport {
        origin_x,
        origin_y,
        cols: (width / 8) as usize,
        rows: if height < 16 {
            0usize
        } else {
            ((height - 16) / 20 + 1) as usize
        },
        line_stride: LINE_STRIDE,
    }
}

impl Viewport {
    /// The grid that fits on `surface` from the corner given.
    pub fn new(surface: FramebufferSurface, origin_x: usize, origin_y: usize) -> (r: Self)
        ensures
            r == viewport_of(surface, origin_x, origin_y),
    {
        let width: usize = if surface.width >= origin_x {
            surface.width - origin_x
        } else {
            0
        };
        let height: usize = if surface.height >= origin_y {
            surface.height - origin_y
        } else {
            0
        };
        let line_stride: usize = FONT_HEIGHT + LINE_SPACING;
        let cols: usize = width / FONT_WIDTH;
        let rows: usize = if height < FONT_HEIGHT {
            0
        } else {
            ((height - FONT_HEIGHT) / line_stride) + 1
        };
        Viewport { origin_x, origin_y, cols, rows, line_stride }
    }

    /// Whether the grid has a cell.
    pub fn is_usable(&self) -> (r: bool)
        ensures
            r == (self.cols > 0 && self.rows > 0),
    {
        self.cols > 0 && self.rows > 0
    }

    /// The top left pixel of the cell of the cursor, for a cursor on the
    /// grid.
    pub fn pixel_position(&self, cursor: Cursor) -> (r: Option<(usize, usize)>)
        ensures
            r == if cursor.col >= self.cols || cursor.row >= self.rows || self.origin_x
                + cursor.col * FONT_WIDTH > usize::MAX || self.origin_y + cursor.row
                * self.line_stride > usize::MAX {
                None
            } else {
                Some(
                    (
                        (self.origin_x + cursor.col * FONT_WIDTH) as usize,
                        (self.origin_y + cursor.row * self.line_stride) as usize,
                    ),
                )
            },
    {
        if cursor.col >= self.cols || cursor.row >= self.rows {
            return None;
        }
        let dx: usize = match cursor.col.checked_mul(FONT_WIDTH) {
            None => {
                return None;
            },
            Some(d) => d,
        };
        let dy: usize = match cursor.row.checked_mul(self.line_stride) {
            None => {
                return None;
            },
            Some(d) => d,
        };
        let x: usize = match self.origin_x.checked_add(dx) {
            None => {
                return None;
            },
            Some(x) => x,
        };
        match self.origin_y.checked_add(dy) {
            None => None,
            Some(y) => Some((x, y)),
        }
    }
}

/// Where the cursor stands after a line feed on a grid of `rows` rows: at
/// the start of the next row, or of the last row once the grid is full.
pub open spec fn cursor_after_newline(cursor: Cursor, rows: usize) -> Cursor {
    Cursor {
        col: 0,
        row: if cursor.row + 1 < rows {
            (cursor.row + 1) as usize
        } else if rows > 0 {
            (rows - 1) as usize
        } else {
            cursor.row
        },
    }
}

/// Whether a line feed at the cursor scrolls the grid.
pub open spec fn newline_scrolls(cursor: Cursor, rows: usize) -> bool {
    !(cursor.row + 1 < rows) && rows > 0
}

/// Copies `count` pixels from index `src` to index `dst`, which lies
/// before `src`.
pub fn copy_row(pixels: &mut [u32], dst: usize, src: usize, count: usize)
    requires
        dst <= src,
        src + count <= old(pixels)@.len(),
    ensures
        final(pixels)@.len() == old(pixels)@.len(),
        forall|i: int|
            0 <= i < final(pixels)@.len() ==> #[trigger] final(pixels)@[i] == if dst <= i < dst
                + count {
                old(pixels)@[i - dst + src]
            } else {
                old(pixels)@[i]
            },
{
    let len: usize = pixels.len();
    let mut k: usize = 0;
    while k < count
        invariant
            k <= count,
            dst <= src,
            len == pixels@.len(),
            src + count <= len,
            pixels@.len() == old(pixels)@.len(),
            forall|i: int|
                0 <= i < pixels@.len() ==> #[trigger] pixels@[i] == if dst <= i < dst + k {
                    old(pixels)@[i - dst + src]
                } else {
                    old(pixels)@[i]
                },
        decreases count - k,
    {
        let value: u32 = pixels[src + k];
        pixels[dst + k] = value;
        k = k + 1;
    }
}

/// Pixels that `cells` cells of `size` pixels take, capped at the largest
/// `usize`.
pub open spec fn capped_cells(cells: usize, size: usize) -> usize {
    if cells * size > usize::MAX {
        usize::MAX
    } else {
        (cells * size) as usize
    }
}

fn saturating_cells(cells: usize, size: usize) -> (r: usize)
    ensures
        r == capped_cells(cells, size),
{
    match cells.checked_mul(size) {
        Some(p) => p,
        None => usize::MAX,
    }
}

/// The width in pixels of the part of the grid that shows on the surface.
pub open spec fn grid_width(surface: FramebufferSurface, v: Viewport) -> int {
    let room = if surface.pitch - v.origin_x < surface.width - v.origin_x {
        surface.pitch - v.origin_x
    } else {
        surface.width - v.origin_x
    };
    if capped_cells(v.cols, FONT_WIDTH) < room {
        capped_cells(v.cols, FONT_WIDTH) as int
    } else {
        room
    }
}

/// Whether the grid can be scrolled: it has cells, its corner lies on the
/// surface, and the framebuffer holds every scanline of the surface.
pub open spec fn scrollable(surface: FramebufferSurface, v: Viewport, len: int) -> bool {
    &&& v.cols > 0
    &&& v.rows > 0
    &&& v.origin_x < surface.pitch
    &&& v.origin_y < surface.height
    &&& grid_width(surface, v) > 0
    &&& surface.height * surface.pitch <= len
}

/// Scanlines that scrolling moves the text up by: all lines but the first,
/// as far as the surface reaches.
pub open spec fn scroll_span(surface: FramebufferSurface, v: Viewport) -> int {
    let wanted = capped_cells(v.line_stride, (v.rows - 1) as usize);
    if wanted < surface.height - v.origin_y {
        wanted as int
    } else {
        surface.height - v.origin_y
    }
}

/// Scanlines that scrolling copies: those of the span whose source lies on
/// the surface.
pub open spec fn copied_span(surface: FramebufferSurface, v: Viewport) -> int {
    let below = surface.height - v.origin_y - v.line_stride;
    if below < 0 {
        0
    } else if scroll_span(surface, v) < below {
        scroll_span(surface, v)
    } else {
        below
    }
}

/// The pixels after the text has moved up: each pixel of the copied
/// scanlines has the value of the pixel one line below it.
pub open spec fn lines_moved(surface: FramebufferSurface, v: Viewport, px: Seq<u32>) -> Seq<u32> {
    Seq::new(
        px.len(),
        |i: int|
            if in_rect(
                i,
                surface.pitch as int,
                v.origin_x as int,
                v.origin_y as int,
                grid_width(surface, v),
                copied_span(surface, v),
            ) {
                px[i + v.line_stride * surface.pitch]
            } else {
                px[i]
            },
    )
}

/// The pixels after `scroll_up`: the text has moved up by one line and the
/// line at the bottom is black. A grid of one row is blacked out instead.
pub open spec fn scrolled(surface: FramebufferSurface, v: Viewport, px: Seq<u32>) -> Seq<u32> {
    if !scrollable(surface, v, px.len() as int) {
        px
    } else if v.rows == 1 {
        rect_filled(
            surface,
            px,
            v.origin_x,
            v.origin_y,
            grid_width(surface, v) as usize,
            v.line_stride,
            FramebufferColor::spec_black(),
        )
    } else {
        let span = scroll_span(surface, v);
        let rest = surface.height - (v.origin_y + span);
        rect_filled(
            surface,
            lines_moved(surface, v, px),
            v.origin_x,
            (v.origin_y + span) as usize,
            grid_width(surface, v) as usize,
            if v.line_stride < rest {
                v.line_stride
            } else {
                rest as usize
            },
            FramebufferColor::spec_black(),
        )
    }
}

/// The cursor and the pixels after a line feed.
pub open spec fn after_newline(
    surface: FramebufferSurface,
    v: Viewport,
    cursor: Cursor,
    px: Seq<u32>,
) -> (Cursor, Seq<u32>) {
    (
        cursor_after_newline(cursor, v.rows),
        if newline_scrolls(cursor, v.rows) {
            scrolled(surface, v, px)
        } else {
            px
        },
    )
}

/// The cursor and the pixels after one byte was written.
pub open spec fn after_byte(
    surface: FramebufferSurface,
    v: Viewport,
    color: FramebufferColor,
    cursor: Cursor,
    px: Seq<u32>,
    byte: u8,
) -> (Cursor, Seq<u32>) {
    let shown = sanitized(byte);
    if shown == 0x0a {
        after_newline(surface, v, cursor, px)
    } else if shown == 0x0d {
        (Cursor { col: 0, row: cursor.row }, px)
    } else if !(v.cols > 0 && v.rows > 0) {
        (cursor, px)
    } else {
        let (at, base) = if cursor.col >= v.cols {
            after_newline(surface, v, cursor, px)
        } else {
            (cursor, px)
        };
        if at.row >= v.rows || at.col >= v.cols || v.origin_x + at.col * FONT_WIDTH > usize::MAX
            || v.origin_y + at.row * v.line_stride > usize::MAX {
            (at, base)
        } else {
            (
                Cursor { col: (at.col + 1) as usize, row: at.row },
                glyph_drawn(
                    surface,
                    base,
                    (v.origin_x + at.col * FONT_WIDTH) as usize,
                    (v.origin_y + at.row * v.line_stride) as usize,
                    shown,
                    color,
                ),
            )
        }
    }
}

/// The cursor and the pixels after the bytes were written, one after
/// another.
pub open spec fn after_bytes(
    surface: FramebufferSurface,
    v: Viewport,
    color: FramebufferColor,
    cursor: Cursor,
    px: Seq<u32>,
    bytes: Seq<u8>,
) -> (Cursor, Seq<u32>)
    decreases bytes.len(),
{
    if bytes.len() == 0 {
        (cursor, px)
    } else {
        let (at, base) = after_bytes(surface, v, color, cursor, px, bytes.drop_last());
        after_byte(surface, v, color, at, base, bytes.last())
    }
}

/// The text console.
pub struct FramebufferConsole {
    surface: FramebufferSurface,
    viewport: Viewport,
    cursor: Cursor,
    color: FramebufferColor,
}

impl FramebufferConsole {
    /// The surface that the console draws on.
    pub closed spec fn surface(&self) -> FramebufferSurface {
        self.surface
    }

    /// The grid of the console.
    pub closed spec fn viewport(&self) -> Viewport {
        self.viewport
    }

    /// The cell that the next character goes to.
    pub closed spec fn cursor(&self) -> Cursor {
        self.cursor
    }

    /// The color of the text.
    pub closed spec fn color(&self) -> FramebufferColor {
        self.color
    }

    /// The grid is the one that fits on the surface, and the cursor stands
    /// on a row of the grid, or on the first row of a grid without rows.
    pub open spec fn wf(&self) -> bool {
        &&& self.viewport() == viewport_of(
            self.surface(),
            self.viewport().origin_x,
            self.viewport().origin_y,
        )
        &&& self.cursor().row < self.viewport().rows || self.cursor().row == 0
        &&& self.cursor().col <= self.viewport().cols
    }

    /// A console on the framebuffer of the record, with its grid from the
    /// corner given and the cursor in the first cell. A framebuffer that is
    /// not usable gives a console without cells.
    pub fn new(fb: Framebuffer, origin_x: usize, origin_y: usize, color: FramebufferColor) -> (r:
        Self)
        ensures
            r.wf(),
            r.color() == color,
            r.cursor() == (Cursor { col: 0, row: 0 }),
            r.surface() == if surface_of(fb).usable() {
                surface_of(fb)
            } else {
                empty_surface()
            },
            r.viewport() == viewport_of(r.surface(), origin_x, origin_y),
    {
        let surface = match FramebufferSurface::new(fb) {
            Ok(s) => s,
            Err(_) => FramebufferSurface::empty(),
        };
        let viewport = Viewport::new(surface, origin_x, origin_y);
        FramebufferConsole { surface, viewport, cursor: Cursor::default(), color }
    }

    /// Whether the console has a cell.
    pub fn is_usable(&self) -> (r: bool)
        ensures
            r == (self.viewport().cols > 0 && self.viewport().rows > 0),
    {
        self.viewport.is_usable()
    }

    /// Number of columns.
    pub fn cols(&self) -> (r: usize)
        ensures
            r == self.viewport().cols,
    {
        self.viewport.cols
    }

    /// Where the cursor stands.
    pub fn cursor_position(&self) -> (r: Cursor)
        ensures
            r == self.cursor(),
    {
        self.cursor
    }

    /// Blacks the grid out and puts the cursor in the first cell.
    pub fn clear(&mut self, pixels: &mut [u32]) -> (r: Result<(), ()>)
        requires
            old(self).wf(),
        ensures
            final(self).wf(),
            final(self).surface() == old(self).surface(),
            final(self).viewport() == old(self).viewport(),
            final(self).color() == old(self).color(),
            final(pixels)@.len() == old(pixels)@.len(),
            r is Err ==> final(pixels)@ == old(pixels)@
                && final(self).cursor() == old(self).cursor(),
            r is Ok ==> final(self).cursor() == (Cursor { col: 0, row: 0 }),
            r is Ok ==> final(pixels)@ == rect_filled(
                old(self).surface(),
                old(pixels)@,
                old(self).viewport().origin_x,
                old(self).viewport().origin_y,
                capped_cells(old(self).viewport().cols, FONT_WIDTH),
                capped_cells(old(self).viewport().rows, LINE_STRIDE),
                FramebufferColor::spec_black(),
            ),
            r is Ok <==> old(self).viewport().cols > 0 && old(self).viewport().rows > 0 && drawable(
                old(self).surface(),
                old(pixels)@.len() as int,
                old(self).viewport().origin_x,
                old(self).viewport().origin_y,
                capped_cells(old(self).viewport().cols, FONT_WIDTH),
                capped_cells(old(self).viewport().rows, LINE_STRIDE),
            ),
            r is Ok ==> ({
                let v = old(self).viewport();
                let (w, h) = clipped(
                    old(self).surface(),
                    v.origin_x,
                    v.origin_y,
                    capped_cells(v.cols, FONT_WIDTH),
                    capped_cells(v.rows, LINE_STRIDE),
                );
                forall|i: int|
                    0 <= i < final(pixels)@.len() ==> #[trigger] final(pixels)@[i] == if in_rect(
                        i,
                        old(self).surface().pitch as int,
                        v.origin_x as int,
                        v.origin_y as int,
                        w,
                        h,
                    ) {
                        0xff00_0000u32
                    } else {
                        old(pixels)@[i]
                    }
            }),
    {
        if !self.viewport.is_usable() {
            return Err(());
        }
        let width: usize = saturating_cells(self.viewport.cols, FONT_WIDTH);
        let height: usize = saturating_cells(self.viewport.rows, self.viewport.line_stride);
        match fill_rect(
            self.surface,
            pixels,
            self.viewport.origin_x,
            self.viewport.origin_y,
            width,
            height,
            FramebufferColor::black(),
        ) {
            Err(_) => {
                return Err(());
            },
            Ok(_) => {},
        }
        self.cursor = Cursor::default();
        Ok(())
    }

    /// Writes the bytes, one after another. A console without cells
    /// writes nothing.
    pub fn write_bytes(&mut self, pixels: &mut [u32], bytes: &[u8]) -> (r: Result<(), ()>)
        requires
            old(self).wf(),
        ensures
            final(self).wf(),
            final(self).surface() == old(self).surface(),
            final(self).viewport() == old(self).viewport(),
            final(self).color() == old(self).color(),
            final(pixels)@.len() == old(pixels)@.len(),
            r is Ok <==> old(self).viewport().cols > 0 && old(self).viewport().rows > 0,
            r is Err ==> final(self).cursor() == old(self).cursor()
                && final(pixels)@ == old(pixels)@,
            r is Ok ==> (final(self).cursor(), final(pixels)@) == after_bytes(
                old(self).surface(),
                old(self).viewport(),
                old(self).color(),
                old(self).cursor(),
                old(pixels)@,
                bytes@,
            ),
    {
        if !self.viewport.is_usable() {
            return Err(());
        }
        let n: usize = bytes.len();
        let mut i: usize = 0;
        proof {
            assert(bytes@.take(0) =~= Seq::<u8>::empty());
        }
        while i < n
            invariant
                i <= n,
                n == bytes@.len(),
                self.wf(),
                self.surface() == old(self).surface(),
                self.viewport() == old(self).viewport(),
                self.color() == old(self).color(),
                pixels@.len() == old(pixels)@.len(),
                (self.cursor(), pixels@) == after_bytes(
                    old(self).surface(),
                    old(self).viewport(),
                    old(self).color(),
                    old(self).cursor(),
                    old(pixels)@,
                    bytes@.take(i as int),
                ),
            decreases n - i,
        {
            proof {
                assert(bytes@.take(i as int + 1).drop_last() =~= bytes@.take(i as int));
                assert(bytes@.take(i as int + 1).last() == bytes@[i as int]);
            }
            self.put_byte(pixels, bytes[i]);
            i = i + 1;
        }
        proof {
            assert(bytes@.take(n as int) =~= bytes@);
        }
        Ok(())
    }

    /// Moves the cursor to the start of the next row, and scrolls the grid
    /// if the cursor stood in the last row.
    pub fn newline(&mut self, pixels: &mut [u32])
        requires
            old(self).wf(),
        ensures
            final(self).wf(),
            final(self).surface() == old(self).surface(),
            final(self).viewport() == old(self).viewport(),
            final(self).color() == old(self).color(),
            final(pixels)@.len() == old(pixels)@.len(),
            (final(self).cursor(), final(pixels)@) == after_newline(
                old(self).surface(),
                old(self).viewport(),
                old(self).cursor(),
                old(pixels)@,
            ),
    {
        self.cursor.col = 0;
        if self.cursor.row < usize::MAX && self.cursor.row + 1 < self.viewport.rows {
            self.cursor.row = self.cursor.row + 1;
        } else if self.viewport.rows > 0 {
            self.scroll_up(pixels);
            self.cursor.row = self.viewport.rows - 1;
        }
    }

    /// Writes one byte at the cursor: a line feed starts a new row, a
    /// carriage return goes back to the start of the row, and everything
    /// else is drawn in the cell of the cursor, after a line feed if the
    /// row is full.
    pub fn put_byte(&mut self, pixels: &mut [u32], byte: u8)
        requires
            old(self).wf(),
        ensures
            final(self).wf(),
            final(self).surface() == old(self).surface(),
            final(self).viewport() == old(self).viewport(),
            final(self).color() == old(self).color(),
            final(pixels)@.len() == old(pixels)@.len(),
            (final(self).cursor(), final(pixels)@) == after_byte(
                old(self).surface(),
                old(self).viewport(),
                old(self).color(),
                old(self).cursor(),
                old(pixels)@,
                byte,
            ),
    {
        let b: u8 = sanitize_byte(byte);
        if b == 0x0a {
            self.newline(pixels);
        } else if b == 0x0d {
            self.cursor.col = 0;
        } else {
            if !self.viewport.is_usable() {
                return ;
            }
            if self.cursor.col >= self.viewport.cols {
                self.newline(pixels);
                if self.cursor.row >= self.viewport.rows {
                    return ;
                }
            }
            if let Some((x, y)) = self.viewport.pixel_position(self.cursor) {
                let _ = draw_glyph(self.surface, pixels, x, y, b, self.color);
                self.cursor.col = self.cursor.col + 1;
            }
        }
    }

    /// Moves the text up by one line and blacks the line at the bottom out.
    pub fn scroll_up(&mut self, pixels: &mut [u32])
        requires
            old(self).wf(),
        ensures
            *final(self) == *old(self),
            final(pixels)@.len() == old(pixels)@.len(),
            final(pixels)@ == scrolled(old(self).surface(), old(self).viewport(), old(pixels)@),
    {
        if !self.viewport.is_usable() {
            return ;
        }
        let origin_x: usize = self.viewport.origin_x;
        let origin_y: usize = self.viewport.origin_y;
        let line_stride: usize = self.viewport.line_stride;
        let rows: usize = self.viewport.rows;
        let cols: usize = self.viewport.cols;
        if rows == 0 || cols == 0 {
            return ;
        }
        let width_pixels: usize = saturating_cells(cols, FONT_WIDTH);
        let surface = self.surface;
        let pitch: usize = surface.pitch;
        if origin_x >= pitch || origin_y >= surface.height {
            return ;
        }
        let room_p: usize = pitch - origin_x;
        let room_w: usize = if surface.width >= origin_x {
            surface.width - origin_x
        } else {
            0
        };
        let max_width: usize = if room_p < room_w {
            room_p
        } else {
            room_w
        };
        let draw_width: usize = if width_pixels < max_width {
            width_pixels
        } else {
            max_width
        };
        if draw_width == 0 {
            return ;
        }
        let len: usize = pixels.len();
        match surface.height.checked_mul(pitch) {
            None => {
                return ;
            },
            Some(total) => {
                if total > len {
                    return ;
                }
            },
        }
        assert(scrollable(surface, self.viewport, len as int));
        assert(draw_width == grid_width(surface, self.viewport));
        if rows == 1 {
            let _ = fill_rect(
                surface,
                pixels,
                origin_x,
                origin_y,
                draw_width,
                line_stride,
                FramebufferColor::black(),
            );
            return ;
        }
        let available_rows: usize = surface.height - origin_y;
        let wanted: usize = saturating_cells(line_stride, rows - 1);
        let scroll_rows: usize = if wanted < available_rows {
            wanted
        } else {
            available_rows
        };
        assert(scroll_rows == scroll_span(surface, self.viewport));
        let ghost copied = copied_span(surface, self.viewport);
        let mut row: usize = 0;
        proof {
            assert forall|i: int| 0 <= i < pixels@.len() implies !in_rect(
                i,
                pitch as int,
                origin_x as int,
                origin_y as int,
                draw_width as int,
                0,
            ) by {
                lemma_rect_grows(
                    i,
                    pitch as int,
                    origin_x as int,
                    origin_y as int,
                    draw_width as int,
                    0,
                );
            }
        }
        while row < scroll_rows && line_stride < surface.height - origin_y - row
            invariant
                row <= scroll_rows,
                row <= copied,
                copied == copied_span(surface, self.viewport),
                scroll_rows == scroll_span(surface, self.viewport),
                *self == *old(self),
                self.wf(),
                surface == self.surface,
                pitch == surface.pitch,
                pitch > 0,
                origin_x == self.viewport.origin_x,
                origin_y == self.viewport.origin_y,
                line_stride == self.viewport.line_stride,
                line_stride == LINE_STRIDE,
                origin_x + draw_width <= pitch,
                origin_y + scroll_rows <= surface.height,
                surface.height * pitch <= len,
                len == pixels@.len(),
                pixels@.len() == old(pixels)@.len(),
                forall|i: int|
                    0 <= i < pixels@.len() ==> #[trigger] pixels@[i] == if in_rect(
                        i,
                        pitch as int,
                        origin_x as int,
                        origin_y as int,
                        draw_width as int,
                        row as int,
                    ) {
                        old(pixels)@[i + line_stride * pitch]
                    } else {
                        old(pixels)@[i]
                    },
            decreases scroll_rows - row,
        {
            let src_row: usize = origin_y + row + line_stride;
            let dst_row: usize = origin_y + row;
            proof {
                assert(src_row * pitch + pitch <= surface.height * pitch) by (nonlinear_arith)
                    requires
                        src_row + 1 <= surface.height,
                        pitch >= 0,
                ;
                assert(dst_row * pitch + line_stride * pitch == src_row * pitch)
                    by (nonlinear_arith)
                    requires
                        src_row == dst_row + line_stride,
                ;
                assert(line_stride * pitch >= 0) by (nonlinear_arith)
                    requires
                        line_stride >= 0,
                        pitch >= 0,
                ;
            }
            let dst: usize = dst_row * pitch + origin_x;
            let src: usize = src_row * pitch + origin_x;
            let ghost before = pixels@;
            copy_row(pixels, dst, src, draw_width);
            proof {
                assert forall|i: int| 0 <= i < pixels@.len() implies #[trigger] pixels@[i]
                    == if in_rect(
                    i,
                    pitch as int,
                    origin_x as int,
                    origin_y as int,
                    draw_width as int,
                    row as int + 1,
                ) {
                    old(pixels)@[i + line_stride * pitch]
                } else {
                    old(pixels)@[i]
                } by {
                    lemma_rect_grows(
                        i,
                        pitch as int,
                        origin_x as int,
                        origin_y as int,
                        draw_width as int,
                        row as int,
                    );
                    if dst <= i < dst + draw_width {
                        let from = i - dst + src;
                        assert(from == i + line_stride * pitch);
                        lemma_rect_below(
                            from,
                            pitch as int,
                            origin_x as int,
                            origin_y as int,
                            draw_width as int,
                            row as int,
                        );
                        assert(before[from] == old(pixels)@[from]);
                    }
                }
            }
            row = row + 1;
        }
        proof {
            assert(row == copied);
            assert(pixels@ =~= lines_moved(surface, self.viewport, old(pixels)@));
        }
        let rest: usize = surface.height - (origin_y + scroll_rows);
        let clear_height: usize = if line_stride < rest {
            line_stride
        } else {
            rest
        };
        let _ = fill_rect(
            surface,
            pixels,
            origin_x,
            origin_y + scroll_rows,
            draw_width,
            clear_height,
            FramebufferColor::black(),
        );
    }
}

/// A pixel at or below the scanline that follows a rectangle lies outside
/// the rectangle.
pub proof fn lemma_rect_below(idx: int, pitch: int, x: int, y: int, w: int, h: int)
    requires
        pitch > 0,
        0 <= y,
        0 <= h,
        idx >= (y + h) * pitch,
    ensures
        !in_rect(idx, pitch, x, y, w, h),
{
    reveal(in_rect);
    if idx / pitch < y + h {
        lemma_fundamental_div_mod(idx, pitch);
        assert(pitch * (idx / pitch) + pitch <= (y + h) * pitch) by (nonlinear_arith)
            requires
                idx / pitch + 1 <= y + h,
                pitch > 0,
        ;
    }
}

} // verus!
