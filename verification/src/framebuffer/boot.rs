//! The boot stage indicators: one colored rectangle for each stage that
//! bring-up has reached, side by side at the top of the screen.

use vstd::prelude::*;
use crate::abi::Framebuffer;
use crate::framebuffer::draw::{
    drawable, fill_rect, rect_filled, surface_of, FramebufferColor, FramebufferSurface,
};

verus! {

/// Width of an indicator in pixels.
pub const BOOT_STAGE_SIZE_X: usize = 64;

/// Height of an indicator in pixels.
pub const BOOT_STAGE_SIZE_Y: usize = 32;

/// The stages of bring-up, in the order in which they are reached.
#[derive(Clone, Copy, Debug, PartialEq, Eq, Structural)]
pub enum BootStage {
    EnteredKernel,
    ParsedMemoryMap,
    FoundUsableMemory,
    FrameAllocated,
    PagingEnabled,
}

/// The color of a stage: red, orange, yellow, green, blue.
pub open spec fn stage_color(stage: BootStage) -> FramebufferColor {
    match stage {
        BootStage::EnteredKernel => FramebufferColor { r: 0xff, g: 0x00, b: 0x00 },
        BootStage::ParsedMemoryMap => FramebufferColor { r: 0xff, g: 0xa5, b: 0x00 },
        BootStage::FoundUsableMemory => FramebufferColor { r: 0xff, g: 0xff, b: 0x00 },
        BootStage::FrameAllocated => FramebufferColor { r: 0x00, g: 0xff, b: 0x00 },
        BootStage::PagingEnabled => FramebufferColor { r: 0x00, g: 0x00, b: 0xff },
    }
}

/// The place of a stage in the order of the stages, from 0.
pub open spec fn stage_number(stage: BootStage) -> usize {
    match stage {
        BootStage::EnteredKernel => 0,
        BootStage::ParsedMemoryMap => 1,
        BootStage::FoundUsableMemory => 2,
        BootStage::FrameAllocated => 3,
        BootStage::PagingEnabled => 4,
    }
}

/// The color of the indicator of a stage.
pub fn boot_stage_color(stage: BootStage) -> (r: FramebufferColor)
    ensures
        r == stage_color(stage),
{
    match stage {
        BootStage::EnteredKernel => FramebufferColor::new(0xff, 0x00, 0x00),
        BootStage::ParsedMemoryMap => FramebufferColor::new(0xff, 0xa5, 0x00),
        BootStage::FoundUsableMemory => FramebufferColor::new(0xff, 0xff, 0x00),
        BootStage::FrameAllocated => FramebufferColor::new(0x00, 0xff, 0x00),
        BootStage::PagingEnabled => FramebufferColor::new(0x00, 0x00, 0xff),
    }
}

/// The column at which the indicator of a stage starts.
pub fn boot_stage_position_x(stage: BootStage) -> (r: usize)
    ensures
        r == stage_number(stage) * BOOT_STAGE_SIZE_X,
{
    let number: usize = match stage {
        BootStage::EnteredKernel => 0,
        BootStage::ParsedMemoryMap => 1,
        BootStage::FoundUsableMemory => 2,
        BootStage::FrameAllocated => 3,
        BootStage::PagingEnabled => 4,
    };
    number * BOOT_STAGE_SIZE_X
}

/// Draws the indicator of a stage at the top of the screen.
pub fn draw_boot_stage(
    fb: &Framebuffer,
    pixels: &mut [u32],
    stage: BootStage,
) -> (r: Result<(), ()>)
    ensures
        final(pixels)@.len() == old(pixels)@.len(),
        r is Ok <==> surface_of(*fb).usable() && drawable(
            surface_of(*fb),
            old(pixels)@.len() as int,
            (stage_number(stage) * BOOT_STAGE_SIZE_X) as usize,
            0,
            BOOT_STAGE_SIZE_X,
            BOOT_STAGE_SIZE_Y,
        ),
        r is Err ==> final(pixels)@ == old(pixels)@,
        surface_of(*fb).usable() ==> final(pixels)@ == rect_filled(
            surface_of(*fb),
            old(pixels)@,
            (stage_number(stage) * BOOT_STAGE_SIZE_X) as usize,
            0,
            BOOT_STAGE_SIZE_X,
            BOOT_STAGE_SIZE_Y,
            stage_color(stage),
        ),
{
    let surface = match FramebufferSurface::new(*fb) {
        Err(_) => {
            return Err(());
        },
        Ok(s) => s,
    };
    let color = boot_stage_color(stage);
    let pos_x: usize = boot_stage_position_x(stage);
    fill_rect(surface, pixels, pos_x, 0, BOOT_STAGE_SIZE_X, BOOT_STAGE_SIZE_Y, color)
}

} // verus!
