//! Font metadata shared by the PSF codec and the glyph grid.

use vstd::prelude::*;

verus! {

/// Dimensions and header fields of a PSF font.
#[derive(Debug, Clone, Copy, PartialEq, Eq, Structural)]
pub struct FontMeta {
    pub version: u8,
    pub width: u32,
    pub height: u32,
    pub num_glyphs: u32,
    pub flags: u32,
}

} // verus!
