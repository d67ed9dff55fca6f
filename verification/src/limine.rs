//! Plain-value models of what the bootloader hands the kernel: memory-map
//! entries and framebuffer properties. Reading the bootloader's response
//! structures happens outside the library; the values land here, where the
//! kernel's decisions about them are made.

use vstd::prelude::*;

verus! {

/// Kind of a memory-map region, a closed sum over the protocol's codes.
#[derive(Clone, Copy, PartialEq, Eq, Structural, Debug)]
pub enum MemmapEntryType {
    Usable,
    Reserved,
    AcpiReclaimable,
    AcpiNvs,
    BadMemory,
    BootloaderReclaimable,
    KernelAndModules,
    MemmapFramebuffer,
}

/// The total mapping from the protocol's integer codes; codes past the
/// known ones have no kind.
pub open spec fn spec_entry_type(value: u64) -> Option<MemmapEntryType> {
    if value == 0 {
        Some(MemmapEntryType::Usable)
    } else if value == 1 {
        Some(MemmapEntryType::Reserved)
    } else if value == 2 {
        Some(MemmapEntryType::AcpiReclaimable)
    } else if value == 3 {
        Some(MemmapEntryType::AcpiNvs)
    } else if value == 4 {
        Some(MemmapEntryType::BadMemory)
    } else if value == 5 {
        Some(MemmapEntryType::BootloaderReclaimable)
    } else if value == 6 {
        Some(MemmapEntryType::KernelAndModules)
    } else if value == 7 {
        Some(MemmapEntryType::MemmapFramebuffer)
    } else {
        None
    }
}

impl MemmapEntryType {
    /// Decode a region kind from its protocol code; an unknown code is a
    /// hard error, never a fallback kind.
    pub fn try_from(value: u64) -> (r: Result<Self, ()>)
        ensures
            match r {
                Ok(t) => spec_entry_type(value) == Some(t),
                Err(_) => spec_entry_type(value) is None,
            },
    {
        match value {
            0 => Ok(MemmapEntryType::Usable),
            1 => Ok(MemmapEntryType::Reserved),
            2 => Ok(MemmapEntryType::AcpiReclaimable),
            3 => Ok(MemmapEntryType::AcpiNvs),
            4 => Ok(MemmapEntryType::BadMemory),
            5 => Ok(MemmapEntryType::BootloaderReclaimable),
            6 => Ok(MemmapEntryType::KernelAndModules),
            7 => Ok(MemmapEntryType::MemmapFramebuffer),
            _ => Err(()),
        }
    }

    /// Regions of every kind but `Usable` are claimed into the memory map
    /// at boot; usable ones are left for the allocator layer to carve.
    pub fn must_claim(&self) -> (r: bool)
        ensures
            r == (*self != MemmapEntryType::Usable),
    {
        match self {
            MemmapEntryType::Usable => false,
            _ => true,
        }
    }
}

/// One memory-map region: its byte range and its kind.
pub struct MemmapItem {
    pub range: (usize, usize),
    pub typ: MemmapEntryType,
}

/// Framebuffer properties that the pixel math reads. The pixel memory
/// itself stays outside the library; a caller takes the computed word and
/// offset and performs the store.
pub struct Framebuffer {
    pub width: u64,
    pub height: u64,
    pub pitch: u64,
    pub bpp: u16,
    pub red_mask_shift: u8,
    pub green_mask_shift: u8,
    pub blue_mask_shift: u8,
}

impl Framebuffer {
    /// Sane properties: shifts inside a 32-bit pixel, and every pixel index
    /// representable.
    pub open spec fn wf(&self) -> bool {
        &&& self.red_mask_shift < 32
        &&& self.green_mask_shift < 32
        &&& self.blue_mask_shift < 32
        &&& self.width * self.height + self.width <= usize::MAX
    }
}

/// Error of a rejected pixel write.
#[derive(Clone, Copy, PartialEq, Eq, Structural, Debug)]
pub enum DrawPixelError {
    InvalidX,
    InvalidY,
    BadProperties,
}

/// The 32-bit pixel word for a color on this framebuffer.
pub open spec fn pixel_word(fb: Framebuffer, color: (u8, u8, u8)) -> u32 {
    (((color.0 as u32) << (fb.red_mask_shift as u32)) | (
    (color.1 as u32) << (fb.green_mask_shift as u32))) | (
    (color.2 as u32) << (fb.blue_mask_shift as u32))
}

/// Validate a pixel write and compute where and what to store: the pixel
/// index into the 32-bit framebuffer and the pixel word. Only 32-bit-pixel
/// framebuffers are accepted.
pub fn draw_pixel(fb: &Framebuffer, x: usize, y: usize, color: (u8, u8, u8)) -> (r: Result<
    (usize, u32),
    DrawPixelError,
>)
    requires
        fb.wf(),
    ensures
        match r {
            Ok(p) => {
                &&& x <= fb.width
                &&& y <= fb.height
                &&& fb.bpp == 32
                &&& p.0 == x + fb.width * y
                &&& p.1 == pixel_word(*fb, color)
            },
            Err(DrawPixelError::InvalidX) => x > fb.width,
            Err(DrawPixelError::InvalidY) => x <= fb.width && y > fb.height,
            Err(DrawPixelError::BadProperties) => x <= fb.width && y <= fb.height && fb.bpp != 32,
        },
{
    if (x as u64) > fb.width {
        return Err(DrawPixelError::InvalidX);
    }
    if (y as u64) > fb.height {
        return Err(DrawPixelError::InvalidY);
    }
    if fb.bpp != 32 {
        return Err(DrawPixelError::BadProperties);
    }
    let (red, green, blue) = color;
    let pixc: u32 = ((red as u32) << (fb.red_mask_shift as u32)) | ((green as u32) << (
    fb.green_mask_shift as u32)) | ((blue as u32) << (fb.blue_mask_shift as u32));
    proof {
        assert((fb.width as int) * (y as int) <= (fb.width as int) * (fb.height as int) && 0
            <= (fb.width as int) * (fb.height as int)) by (nonlinear_arith)
            requires
                (y as int) <= (fb.height as int),
                0 <= fb.width as int,
                0 <= fb.height as int,
        ;
    }
    let w: usize = fb.width as usize;
    let idx: usize = x + w * y;
    Ok((idx, pixc))
}

} // verus!
