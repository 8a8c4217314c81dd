//! Conversion between PSF bitmap fonts (PSF1 and PSF2, as used by the Linux
//! console) and an editable BMP image of their glyphs, drawn as a grid of
//! cells with red separators.
//!
//! - `psf`: reading and writing PSF font files.
//! - `glyph`: unpacking glyph bitmaps into pixels and packing them back.
//! - `grid`: drawing a font's glyph grid and reading glyphs back from it.
//! - `bmp`: encoding and decoding 24-bit BMP images.
//! - `convert`: the conversions the tool performs, bytes to bytes.
//! - `round_trip`: PSF to BMP and back reproduces the font.
//! - `cli`: numeric command-line flags.

pub mod bmp;
pub mod cli;
pub mod convert;
pub mod glyph;
pub mod grid;
pub mod meta;
pub mod psf;
pub mod round_trip;
