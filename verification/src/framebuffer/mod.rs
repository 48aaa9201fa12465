//! Drawing into the linear framebuffer: pixels, rectangles, glyphs, and the
//! text console on top of them. The framebuffer is a slice of 32-bit pixels
//! that the caller lays over the device memory.

use vstd::prelude::*;
use crate::abi::Framebuffer;

pub mod boot;
pub mod draw;
pub mod font;
pub mod text;

use self::draw::{clear_black, cleared, in_rect, surface_of, FramebufferColor};
use self::font::FONT_HEIGHT;
use self::text::{viewport_of, Cursor, FramebufferConsole};

verus! {

/// The console of early boot: its grid starts one line below the top of the
/// screen. A framebuffer without room for a cell has no console.
pub fn init_boot_console(fb: Framebuffer, color: FramebufferColor) -> (r: Result<
    FramebufferConsole,
    (),
>)
    ensures
        r is Ok <==> surface_of(fb).usable() && viewport_of(surface_of(fb), 0, FONT_HEIGHT).cols > 0
            && viewport_of(surface_of(fb), 0, FONT_HEIGHT).rows > 0,
        r matches Ok(console) ==> console.wf() && console.color() == color && console.cursor() == (
        Cursor { col: 0, row: 0 }) && console.surface() == surface_of(fb) && console.viewport()
            == viewport_of(surface_of(fb), 0, FONT_HEIGHT),
{
    let console = FramebufferConsole::new(fb, 0, FONT_HEIGHT, color);
    if !console.is_usable() {
        return Err(());
    }
    Ok(console)
}

/// Clears the framebuffer to black.
pub fn clear_framebuffer(fb: &Framebuffer, pixels: &mut [u32]) -> (r: Result<(), ()>)
    ensures
        final(pixels)@.len() == old(pixels)@.len(),
        r is Ok <==> surface_of(*fb).usable() && cleared(*fb, old(pixels)@.len() as int).0 > 0,
        r is Err ==> final(pixels)@ == old(pixels)@,
        r is Ok ==> forall|i: int|
            0 <= i < final(pixels)@.len() ==> #[trigger] final(pixels)@[i] == if in_rect(
                i,
                fb.pixels_per_scanline as int,
                0,
                0,
                cleared(*fb, old(pixels)@.len() as int).1,
                cleared(*fb, old(pixels)@.len() as int).0,
            ) {
                0xff00_0000u32
            } else {
                old(pixels)@[i]
            },
{
    clear_black(fb, pixels)
}

} // verus!
