//! The conversions the tool performs, from bytes to bytes: a PSF font to a
//! BMP glyph grid, a BMP grid (with the font's metadata) back to a PSF font,
//! and a blank grid for a new font.

use vstd::prelude::*;

use crate::bmp::{
    bmp_bytes, bmp_decode, decode_bmp, decode_fits, encode_bmp, encode_fits, i32_at, u32_at,
    BmpError,
};
use crate::grid::{
    blank_grid, font_to_grid, grid_accepts, grid_decode, grid_fits, grid_height, grid_readable,
    grid_reads_only_cells, grid_to_font, grid_width, layout, same_glyph_cells, GridError,
};
use crate::meta::FontMeta;
use crate::psf::{
    parse, psf_decode, psf_encode, row_bytes, serialize,
    PsfError, PsfFont,
};

verus! {

/// Why a conversion failed.
#[derive(Debug, Clone, Copy, PartialEq, Eq, Structural)]
pub enum ConvertError {
    /// The PSF font could not be read or written.
    Psf(PsfError),
    /// The BMP image could not be read.
    Bmp(BmpError),
    /// The grid does not fit the metadata, or a PSF1 font is not 8 pixels wide.
    Grid(GridError),
    /// A size computation would overflow or an index would fall outside the
    /// data: the conversion cannot proceed.
    OutOfRange,
}

/// Whether the grid of dimensions `width` x `height` for `num_glyphs` glyphs
/// can be computed without overflowing usize.
pub fn grid_in_range(width: u32, height: u32, num_glyphs: u32) -> (b: bool)
    ensures
        b == grid_fits(width, height, num_glyphs),
{
    let w = width as u128;
    let h = height as u128;
    let n = num_glyphs as u128;
    let max = usize::MAX as u128;
    let gw = 1 + 16 * (w + 1);
    assert(((n + 15) / 16) * (h + 1) <= 0x1_0000_0000_0000_0000) by (nonlinear_arith)
        requires
            (n + 15) / 16 <= 0x1000_0000,
            h + 1 <= 0x1_0000_0000,
            0 <= (n + 15) / 16,
            0 <= h,
    ;
    let gh = 1 + ((n + 15) / 16) * (h + 1);
    assert(gw * gh <= 0x1_0000_0000_0000_0000_0000_0000_0000) by (nonlinear_arith)
        requires
            gw <= 0x20_0000_0000,
            gh <= 0x10_0000_0000_0000_0000,
            0 <= gw,
            0 <= gh,
    ;
    n + 16 <= max && gw <= max && h + 1 <= max && gh <= max && gw * gh <= max
}

/// Whether `font_to_grid` can draw this font.
pub fn grid_accepts_font(font: &PsfFont) -> (b: bool)
    ensures
        b == grid_accepts(font.meta, font@.1),
{
    let ghost glyphs = font@.1;
    if !grid_in_range(font.meta.width, font.meta.height, font.meta.num_glyphs) {
        return false;
    }
    let w = font.meta.width as u128;
    let h = font.meta.height as u128;
    let n = font.meta.num_glyphs as u128;
    let count = font.glyphs.len();
    assert(w * h <= 0xffff_ffff_ffff_ffff_ffff) by (nonlinear_arith)
        requires
            w <= 0xffff_ffff,
            h <= 0xffff_ffff,
            0 <= w,
            0 <= h,
    ;
    assert(h * ((w + 7) / 8) <= 0x1_0000_0000_0000_0000) by (nonlinear_arith)
        requires
            h <= 0xffff_ffff,
            (w + 7) / 8 <= 0x2000_0000,
            0 <= (w + 7) / 8,
            0 <= h,
    ;
    if count > 0 && !(w + 7 <= u32::MAX as u128 && w * h <= u32::MAX as u128) {
        return false;
    }
    let need = h * ((w + 7) / 8);
    let mut i: usize = 0;
    while i < count
        invariant
            i <= count,
            count == glyphs.len(),
            glyphs == font@.1,
            need == font.meta.height * row_bytes(font.meta.width as int),
            forall|j: int| 0 <= j < i ==> (#[trigger] glyphs[j]).len() >= need,
        decreases count - i,
    {
        proof {
            assert(glyphs[i as int] == font.glyphs@[i as int]@);
        }
        if (font.glyphs[i].len() as u128) < need {
            return false;
        }
        i = i + 1;
    }
    let c = count as u128;
    if !(c <= 16 * ((n + 15) / 16) || w == 0 || h == 0) {
        return false;
    }
    if count > 0 {
        assert(((c - 1) / 16) * (h + 1) <= 0x1_0000_0000_0000_0000_0000_0000) by (nonlinear_arith)
            requires
                (c - 1) / 16 <= 0x1_0000_0000_0000_0000,
                h + 1 <= 0x1_0000_0000,
                0 <= (c - 1) / 16,
        ;
        1 + ((c - 1) / 16) * (h + 1) <= usize::MAX as u128
    } else {
        true
    }
}

/// Whether `encode_bmp` can encode `pixel_count` pixels as a `width` x
/// `height` image without overflow.
pub fn encode_in_range(width: usize, height: usize, pixel_count: usize) -> (b: bool)
    ensures
        b == encode_fits(width as int, height as int, pixel_count as int),
{
    let w = width as u128;
    let h = height as u128;
    let max = usize::MAX as u128;
    assert(w * h <= 0xffff_ffff_ffff_fffe_0000_0000_0000_0001) by (nonlinear_arith)
        requires
            w <= 0xffff_ffff_ffff_ffff,
            h <= 0xffff_ffff_ffff_ffff,
            0 <= w,
            0 <= h,
    ;
    if w * h > max {
        return false;
    }
    if pixel_count as u128 != w * h {
        return true;
    }
    let s = ((w * 3 + 3) / 4) * 4;
    assert(s * h <= 0x10_0000_0000_0000_0000) by (nonlinear_arith)
        requires
            s <= 3 * w + 3,
            h <= 0xffff_ffff_ffff_ffff,
            w * h <= 0xffff_ffff_ffff_ffff,
            0 <= s,
            0 <= h,
            0 <= w,
    ;
    w * 3 + 3 <= max && s * h <= max && 54 + s * h <= max && h % 0x1_0000_0000 != 0x8000_0000
}

/// Whether `decode_bmp` can locate the pixel data of `data` without overflow.
pub fn decode_in_range(data: &[u8]) -> (b: bool)
    ensures
        b == decode_fits(data@),
{
    if data.len() < 54 || data[0] != 0x42 || data[1] != 0x4d {
        return true;
    }
    let width = i32_at(data, 18);
    let bpp = data[28] as u16 + 256 * (data[29] as u16);
    let compression = u32_at(data, 30);
    if width <= 0 || bpp != 24 || compression != 0 {
        return true;
    }
    let height_raw = i32_at(data, 22);
    let h: u128 = if height_raw < 0 {
        (-(height_raw as i64)) as u128
    } else {
        height_raw as u128
    };
    let w = width as u128;
    let s = ((w * 3 + 3) / 4) * 4;
    let off = u32_at(data, 10) as u128;
    let max = usize::MAX as u128;
    assert(s * h <= 0x1_0000_0000_0000_0000) by (nonlinear_arith)
        requires
            s <= 0x1_8000_0000,
            h <= 0x8000_0000,
            0 <= s,
            0 <= h,
    ;
    w * 3 + 3 <= max && s * h <= max && off + s * h <= max
}

/// The grid of a font, row by row.
pub open spec fn font_grid(meta: FontMeta, glyphs: Seq<Seq<u8>>) -> Seq<[u8; 3]> {
    layout(
        glyphs,
        meta.width,
        meta.height,
        glyphs.len() as int,
        grid_width(meta.width as int),
        grid_height(meta.height as int, meta.num_glyphs as int),
    )
}

/// What converting a PSF font file to a BMP grid gives: the font metadata
/// and the image bytes.
pub open spec fn psf_to_bmp_result(data: Seq<u8>) -> Result<(FontMeta, Seq<u8>), ConvertError> {
    match psf_decode(data) {
        Err(e) => Err(ConvertError::Psf(e)),
        Ok((meta, glyphs)) => {
            let gw = grid_width(meta.width as int);
            let gh = grid_height(meta.height as int, meta.num_glyphs as int);
            if !grid_accepts(meta, glyphs) || !encode_fits(gw, gh, gw * gh) {
                Err(ConvertError::OutOfRange)
            } else {
                Ok((meta, bmp_bytes(gw, gh, font_grid(meta, glyphs))))
            }
        },
    }
}

/// What converting a BMP grid back to a PSF font file gives, given the
/// font's metadata.
pub open spec fn bmp_to_psf_result(meta: FontMeta, bmp: Seq<u8>) -> Result<Seq<u8>, ConvertError> {
    if !decode_fits(bmp) {
        Err(ConvertError::OutOfRange)
    } else {
        match bmp_decode(bmp) {
            Err(e) => Err(ConvertError::Bmp(e)),
            Ok((w, h, pixels)) => if !grid_readable(meta, w as int, h as int, pixels.len() as int) {
                Err(ConvertError::OutOfRange)
            } else {
                match grid_decode(meta, w as int, h as int, pixels) {
                    Err(e) => Err(ConvertError::Grid(e)),
                    Ok((m, glyphs)) => match psf_encode(m, glyphs) {
                        Err(e) => Err(ConvertError::Psf(e)),
                        Ok(bytes) => Ok(bytes),
                    },
                }
            },
        }
    }
}

/// Converting a BMP grid back to a PSF font reads only the pixels inside the
/// cells of the glyphs below the glyph count: two BMP images of the same
/// dimensions whose decoded pixels agree there convert to the same result,
/// whatever their separators and unused cells hold.
pub proof fn bmp_to_psf_reads_only_cells(meta: FontMeta, bmp1: Seq<u8>, bmp2: Seq<u8>)
    requires
        decode_fits(bmp1),
        decode_fits(bmp2),
        bmp_decode(bmp1) is Ok,
        bmp_decode(bmp2) is Ok,
        bmp_decode(bmp1)->Ok_0.0 == bmp_decode(bmp2)->Ok_0.0,
        bmp_decode(bmp1)->Ok_0.1 == bmp_decode(bmp2)->Ok_0.1,
        same_glyph_cells(
            meta,
            bmp_decode(bmp1)->Ok_0.0 as int,
            bmp_decode(bmp1)->Ok_0.1 as int,
            bmp_decode(bmp1)->Ok_0.2,
            bmp_decode(bmp2)->Ok_0.2,
        ),
    ensures
        bmp_to_psf_result(meta, bmp1) == bmp_to_psf_result(meta, bmp2),
{
    let (w, h, p1) = bmp_decode(bmp1)->Ok_0;
    let p2 = bmp_decode(bmp2)->Ok_0.2;
    assert(p1.len() == p2.len());
    grid_reads_only_cells(meta, w as int, h as int, p1, p2);
}

/// What creating a blank font gives: its metadata and the image bytes of its
/// empty grid.
pub open spec fn blank_bmp_result(width: u32, height: u32, num_glyphs: u32, version: u8) -> Result<
    (FontMeta, Seq<u8>),
    ConvertError,
> {
    let gw = grid_width(width as int);
    let gh = grid_height(height as int, num_glyphs as int);
    if version == 1 && width != 8 {
        Err(ConvertError::Grid(GridError::Psf1WidthNot8))
    } else if !grid_fits(width, height, num_glyphs) || !encode_fits(gw, gh, gw * gh) {
        Err(ConvertError::OutOfRange)
    } else {
        Ok(
            (
                FontMeta { version, width, height, num_glyphs, flags: 0 },
                bmp_bytes(gw, gh, layout(Seq::empty(), width, height, 0, gw, gh)),
            ),
        )
    }
}

/// The metadata and bytes a conversion returned, or its error.
pub open spec fn meta_bytes_view(r: Result<(FontMeta, Vec<u8>), ConvertError>) -> Result<
    (FontMeta, Seq<u8>),
    ConvertError,
> {
    match r {
        Ok((m, b)) => Ok((m, b@)),
        Err(e) => Err(e),
    }
}

/// The bytes a conversion returned, or its error.
pub open spec fn bytes_result_view(r: Result<Vec<u8>, ConvertError>) -> Result<Seq<u8>, ConvertError> {
    match r {
        Ok(b) => Ok(b@),
        Err(e) => Err(e),
    }
}

/// Converts a PSF font file into the BMP image of its glyph grid, returning
/// the font metadata with it.
pub fn psf_to_bmp(data: &[u8]) -> (res: Result<(FontMeta, Vec<u8>), ConvertError>)
    ensures
        meta_bytes_view(res) == psf_to_bmp_result(data@),
{
    let font = match parse(data) {
        Ok(f) => f,
        Err(e) => {
            return Err(ConvertError::Psf(e));
        },
    };
    if !grid_accepts_font(&font) {
        return Err(ConvertError::OutOfRange);
    }
    let (bmp_w, bmp_h, pixels) = font_to_grid(&font);
    proof {
        assert(pixels@.len() == bmp_w * bmp_h);
    }
    if !encode_in_range(bmp_w, bmp_h, pixels.len()) {
        return Err(ConvertError::OutOfRange);
    }
    match encode_bmp(bmp_w, bmp_h, pixels.as_slice()) {
        Ok(bytes) => Ok((font.meta, bytes)),
        Err(e) => Err(ConvertError::Bmp(e)),
    }
}

/// Converts the BMP image of a glyph grid back into a PSF font file, using
/// the font metadata saved when the grid was made.
pub fn bmp_to_psf(meta: FontMeta, bmp: &[u8]) -> (res: Result<Vec<u8>, ConvertError>)
    ensures
        bytes_result_view(res) == bmp_to_psf_result(meta, bmp@),
{
    if !decode_in_range(bmp) {
        return Err(ConvertError::OutOfRange);
    }
    let (bmp_w, bmp_h, pixels) = match decode_bmp(bmp) {
        Ok(d) => d,
        Err(e) => {
            return Err(ConvertError::Bmp(e));
        },
    };
    if !grid_readable_in_range(meta, bmp_w, bmp_h, pixels.len()) {
        return Err(ConvertError::OutOfRange);
    }
    let font = match grid_to_font(meta, bmp_w, bmp_h, pixels.as_slice()) {
        Ok(f) => f,
        Err(e) => {
            return Err(ConvertError::Grid(e));
        },
    };
    match serialize(&font) {
        Ok(bytes) => Ok(bytes),
        Err(e) => Err(ConvertError::Psf(e)),
    }
}

/// Whether `grid_to_font` can read a `bmp_w` x `bmp_h` grid of `pixel_count`
/// pixels for this metadata.
pub fn grid_readable_in_range(meta: FontMeta, bmp_w: usize, bmp_h: usize, pixel_count: usize) -> (b: bool)
    ensures
        b == grid_readable(meta, bmp_w as int, bmp_h as int, pixel_count as int),
{
    let w = meta.width as u128;
    let h = meta.height as u128;
    let n = meta.num_glyphs as u128;
    let max = usize::MAX as u128;
    let gw = 1 + 16 * (w + 1);
    assert(((n + 15) / 16) * (h + 1) <= 0x1_0000_0000_0000_0000) by (nonlinear_arith)
        requires
            (n + 15) / 16 <= 0x1000_0000,
            h + 1 <= 0x1_0000_0000,
            0 <= (n + 15) / 16,
            0 <= h,
    ;
    let gh = 1 + ((n + 15) / 16) * (h + 1);
    if !(n + 16 <= max && gw <= max && h + 1 <= max && gh <= max) {
        return false;
    }
    let bw = bmp_w as u128;
    let bh = bmp_h as u128;
    if bw == gw && bh == gh {
        assert(bw * bh <= 0xffff_ffff_ffff_fffe_0000_0000_0000_0001) by (nonlinear_arith)
            requires
                bw <= 0xffff_ffff_ffff_ffff,
                bh <= 0xffff_ffff_ffff_ffff,
                0 <= bw,
                0 <= bh,
        ;
        bw * bh <= pixel_count as u128 && (n == 0 || w + 7 <= u32::MAX as u128)
    } else {
        true
    }
}

/// Makes the BMP image of the empty grid for a new font, returning the
/// font's metadata (flags 0) with it. PSF1 fonts must be 8 pixels wide.
#[verifier::spinoff_prover]
pub fn blank_bmp(width: u32, height: u32, num_glyphs: u32, version: u8) -> (res: Result<
    (FontMeta, Vec<u8>),
    ConvertError,
>)
    ensures
        meta_bytes_view(res) == blank_bmp_result(width, height, num_glyphs, version),
{
    if version == 1 && width != 8 {
        return Err(ConvertError::Grid(GridError::Psf1WidthNot8));
    }
    if !grid_in_range(width, height, num_glyphs) {
        return Err(ConvertError::OutOfRange);
    }
    let (meta, bmp_w, bmp_h, pixels) = match blank_grid(width, height, num_glyphs, version) {
        Ok(g) => g,
        Err(e) => {
            return Err(ConvertError::Grid(e));
        },
    };
    let ghost gw = grid_width(width as int);
    let ghost gh = grid_height(height as int, num_glyphs as int);
    assert(bmp_w == gw && bmp_h == gh);
    assert(pixels@ == layout(Seq::empty(), width, height, 0, gw, gh));
    assert(meta == FontMeta { version, width, height, num_glyphs, flags: 0 });
    if !encode_in_range(bmp_w, bmp_h, pixels.len()) {
        return Err(ConvertError::OutOfRange);
    }
    match encode_bmp(bmp_w, bmp_h, pixels.as_slice()) {
        Ok(bytes) => Ok((meta, bytes)),
        Err(e) => Err(ConvertError::Bmp(e)),
    }
}

} // verus!
