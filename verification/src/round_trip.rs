//! The round trip the tool exists for: a PSF font drawn as a BMP glyph grid
//! and read back.

use vstd::prelude::*;

use crate::bmp::{bmp_bytes, bmp_decode, bmp_round_trip, decode_fits, encode_fits, BmpError};
use crate::convert::{
    blank_bmp_result, bmp_to_psf_result, font_grid, psf_to_bmp_result, ConvertError,
};
use crate::glyph::padding_clear;
use crate::grid::{
    blank_grid_reads_as_empty_glyphs, grid_accepts, grid_decode, grid_height, grid_round_trip,
    grid_width, layout, GridError,
};
use crate::meta::FontMeta;
use crate::psf::{
    has_psf2_magic, le_u32, lemma_all_sized_no_wrong, parsed_font_shape, psf1_read_then_write,
    psf1_write_then_read, psf2_glyph_size, psf2_read_then_write,
    psf2_dims_fit, psf2_write_then_read, psf_decode, psf_encode, row_bytes, u32_le, PsfError,
};

verus! {

/// Drawing a font's grid, encoding it as a BMP, decoding the BMP and reading
/// the glyphs back from the grid gives the same font, when every glyph's
/// padding bits are clear and the grid fits the BMP header fields.
#[verifier::spinoff_prover]
pub proof fn font_bmp_round_trip(meta: FontMeta, glyphs: Seq<Seq<u8>>)
    requires
        meta.num_glyphs == glyphs.len(),
        forall|i: int|
            0 <= i < glyphs.len() ==> padding_clear(#[trigger] glyphs[i], meta.width, meta.height),
        forall|i: int|
            0 <= i < glyphs.len() ==> (#[trigger] glyphs[i]).len() == meta.height * row_bytes(
                meta.width as int,
            ),
        grid_width(meta.width as int) <= 0x7fff_ffff,
        grid_height(meta.height as int, meta.num_glyphs as int) <= 0x7fff_ffff,
        encode_fits(
            grid_width(meta.width as int),
            grid_height(meta.height as int, meta.num_glyphs as int),
            grid_width(meta.width as int) * grid_height(meta.height as int, meta.num_glyphs as int),
        ),
    ensures
        ({
            let gw = grid_width(meta.width as int);
            let gh = grid_height(meta.height as int, meta.num_glyphs as int);
            let bmp = bmp_bytes(gw, gh, font_grid(meta, glyphs));
            &&& decode_fits(bmp)
            &&& bmp_decode(bmp) == Ok::<_, BmpError>(
                (gw as usize, gh as usize, font_grid(meta, glyphs)),
            )
            &&& grid_decode(meta, gw, gh, font_grid(meta, glyphs)) == Ok::<_, GridError>(
                (meta, glyphs),
            )
        }),
{
    let gw = grid_width(meta.width as int);
    let gh = grid_height(meta.height as int, meta.num_glyphs as int);
    let pixels = font_grid(meta, glyphs);
    assert(0 <= gw * gh) by (nonlinear_arith)
        requires
            0 < gw,
            0 <= gh,
    ;
    bmp_round_trip(gw as usize, gh as usize, pixels);
    grid_round_trip(meta, glyphs);
}

/// The BMP grid of a font converts back to the PSF bytes of that font.
#[verifier::spinoff_prover]
proof fn lemma_grid_bmp_back(meta: FontMeta, glyphs: Seq<Seq<u8>>)
    requires
        grid_accepts(meta, glyphs),
        meta.num_glyphs == glyphs.len(),
        forall|i: int|
            0 <= i < glyphs.len() ==> padding_clear(#[trigger] glyphs[i], meta.width, meta.height),
        forall|i: int|
            0 <= i < glyphs.len() ==> (#[trigger] glyphs[i]).len() == meta.height * row_bytes(
                meta.width as int,
            ),
        grid_width(meta.width as int) <= 0x7fff_ffff,
        grid_height(meta.height as int, meta.num_glyphs as int) <= 0x7fff_ffff,
        encode_fits(
            grid_width(meta.width as int),
            grid_height(meta.height as int, meta.num_glyphs as int),
            grid_width(meta.width as int) * grid_height(meta.height as int, meta.num_glyphs as int),
        ),
    ensures
        bmp_to_psf_result(
            meta,
            bmp_bytes(
                grid_width(meta.width as int),
                grid_height(meta.height as int, meta.num_glyphs as int),
                font_grid(meta, glyphs),
            ),
        ) == match psf_encode(meta, glyphs) {
            Ok(bytes) => Ok::<_, ConvertError>(bytes),
            Err(e) => Err(ConvertError::Psf(e)),
        },
{
    font_bmp_round_trip(meta, glyphs);
}

/// Each glyph of a font read from a file holds the bytes that its width and
/// height imply, when a PSF2 header records exactly that many bytes per glyph.
proof fn lemma_parsed_glyph_sizes(data: Seq<u8>)
    requires
        psf_decode(data) is Ok,
        has_psf2_magic(data) ==> le_u32(data, 20) == psf2_glyph_size(psf_decode(data)->Ok_0.0),
    ensures
        psf_decode(data)->Ok_0.0.num_glyphs == psf_decode(data)->Ok_0.1.len(),
        forall|i: int|
            0 <= i < psf_decode(data)->Ok_0.1.len() ==> (#[trigger] psf_decode(data)->Ok_0.1[i]).len()
                == psf2_glyph_size(psf_decode(data)->Ok_0.0),
{
    parsed_font_shape(data);
    if !has_psf2_magic(data) {
        assert(psf_decode(data)->Ok_0.0.width == 8 && row_bytes(8) == 1);
    }
}

/// Converting a PSF font file to a BMP grid and that grid back to a PSF
/// file reproduces the font file byte for byte, up to the end of its glyph
/// data, when its glyphs' padding bits are clear, the grid fits the BMP
/// header fields, and a PSF2 header is in the form this library writes.
#[verifier::spinoff_prover]
pub proof fn psf_bmp_psf_round_trip(data: Seq<u8>)
    requires
        psf_to_bmp_result(data) is Ok,
        forall|i: int|
            0 <= i < psf_decode(data)->Ok_0.1.len() ==> padding_clear(
                #[trigger] psf_decode(data)->Ok_0.1[i],
                psf_to_bmp_result(data)->Ok_0.0.width,
                psf_to_bmp_result(data)->Ok_0.0.height,
            ),
        grid_width(psf_to_bmp_result(data)->Ok_0.0.width as int) <= 0x7fff_ffff,
        grid_height(
            psf_to_bmp_result(data)->Ok_0.0.height as int,
            psf_to_bmp_result(data)->Ok_0.0.num_glyphs as int,
        ) <= 0x7fff_ffff,
        has_psf2_magic(data) ==> {
            &&& le_u32(data, 4) == 0
            &&& le_u32(data, 8) == 32
            &&& le_u32(data, 20) == psf2_glyph_size(psf_to_bmp_result(data)->Ok_0.0)
        },
    ensures
        ({
            let (meta, bmp) = psf_to_bmp_result(data)->Ok_0;
            &&& bmp_to_psf_result(meta, bmp) is Ok
            &&& bmp_to_psf_result(meta, bmp)->Ok_0.len() <= data.len()
            &&& bmp_to_psf_result(meta, bmp)->Ok_0 == data.subrange(
                0,
                bmp_to_psf_result(meta, bmp)->Ok_0.len() as int,
            )
        }),
{
    let (meta, glyphs) = psf_decode(data)->Ok_0;
    lemma_parsed_glyph_sizes(data);
    font_bmp_round_trip(meta, glyphs);
    assert(grid_accepts(meta, glyphs));
    if has_psf2_magic(data) {
        psf2_read_then_write(data);
    } else {
        psf1_read_then_write(data);
    }
}

/// A PSF2 font read from a file, 2^27 pixels wide at most, whose header
/// records as many bytes per glyph as its width and height imply, meets what
/// the writer needs to write it and the reader to read it back.
proof fn lemma_psf2_rewritable(data: Seq<u8>)
    requires
        has_psf2_magic(data),
        psf_decode(data) is Ok,
        psf_decode(data)->Ok_0.0.width < 0x800_0000,
        le_u32(data, 20) == psf2_glyph_size(psf_decode(data)->Ok_0.0),
    ensures
        psf2_dims_fit(psf_decode(data)->Ok_0.0),
        32 + psf_decode(data)->Ok_0.1.len() * psf2_glyph_size(psf_decode(data)->Ok_0.0)
            <= usize::MAX,
{
    let (meta, glyphs) = psf_decode(data)->Ok_0;
    let size = psf2_glyph_size(meta);
    assert(size == le_u32(data, 20));
    assert(le_u32(data, 8) >= 32);
    assert(glyphs.len() * le_u32(data, 20) + le_u32(data, 8) <= usize::MAX);
}

/// Converting a PSF font file to a BMP grid and that grid back to a PSF
/// file gives a file that reads as the same font, metadata and glyph bitmaps
/// alike, when its glyphs' padding bits are clear, the grid fits the BMP
/// header fields, and a PSF2 header records as many bytes per glyph as the
/// width and height imply.
#[verifier::spinoff_prover]
#[verifier::rlimit(40)]
pub proof fn psf_bmp_psf_same_font(data: Seq<u8>)
    requires
        psf_to_bmp_result(data) is Ok,
        forall|i: int|
            0 <= i < psf_decode(data)->Ok_0.1.len() ==> padding_clear(
                #[trigger] psf_decode(data)->Ok_0.1[i],
                psf_to_bmp_result(data)->Ok_0.0.width,
                psf_to_bmp_result(data)->Ok_0.0.height,
            ),
        grid_width(psf_to_bmp_result(data)->Ok_0.0.width as int) <= 0x7fff_ffff,
        grid_height(
            psf_to_bmp_result(data)->Ok_0.0.height as int,
            psf_to_bmp_result(data)->Ok_0.0.num_glyphs as int,
        ) <= 0x7fff_ffff,
        has_psf2_magic(data) ==> le_u32(data, 20) == psf2_glyph_size(
            psf_to_bmp_result(data)->Ok_0.0,
        ),
    ensures
        ({
            let (meta, bmp) = psf_to_bmp_result(data)->Ok_0;
            &&& bmp_to_psf_result(meta, bmp) is Ok
            &&& psf_decode(bmp_to_psf_result(meta, bmp)->Ok_0) == psf_decode(data)
        }),
{
    let (meta, glyphs) = psf_decode(data)->Ok_0;
    let gw = grid_width(meta.width as int);
    let gh = grid_height(meta.height as int, meta.num_glyphs as int);
    let bmp = bmp_bytes(gw, gh, font_grid(meta, glyphs));
    assert(psf_to_bmp_result(data) == Ok::<_, ConvertError>((meta, bmp)));
    lemma_parsed_glyph_sizes(data);
    lemma_grid_bmp_back(meta, glyphs);
    if has_psf2_magic(data) {
        lemma_psf2_rewritable(data);
        psf2_write_then_read(meta, glyphs);
    } else {
        assert(meta.width == 8 && row_bytes(8) == 1);
        assert(psf2_glyph_size(meta) == meta.height);
        psf1_write_then_read(meta, glyphs);
    }
    assert(bmp_to_psf_result(meta, bmp) == Ok::<_, ConvertError>(psf_encode(meta, glyphs)->Ok_0));
}

/// The glyphs of a font whose every glyph byte is zero.
pub open spec fn empty_glyphs(meta: FontMeta) -> Seq<Seq<u8>> {
    Seq::new(
        meta.num_glyphs as nat,
        |i: int| Seq::new((meta.height * row_bytes(meta.width as int)) as nat, |k: int| 0u8),
    )
}

/// `n` zero bytes.
pub open spec fn zero_bytes(n: int) -> Seq<u8> {
    Seq::new(n as nat, |k: int| 0u8)
}

proof fn lemma_flatten_zeros(count: nat, size: nat)
    ensures
        Seq::new(count, |i: int| zero_bytes(size as int)).flatten() == zero_bytes((count * size) as int),
    decreases count,
{
    let s = Seq::new(count, |i: int| zero_bytes(size as int));
    if count == 0 {
        assert(s =~= Seq::<Seq<u8>>::empty());
        assert(zero_bytes((count * size) as int) =~= Seq::<u8>::empty());
    } else {
        let c1 = (count - 1) as nat;
        lemma_flatten_zeros(c1, size);
        assert(s.drop_last() =~= Seq::new(c1, |i: int| zero_bytes(size as int)));
        assert(s =~= s.drop_last().push(s.last()));
        s.drop_last().lemma_flatten_push(s.last());
        assert(c1 * size + size == count * size) by (nonlinear_arith)
            requires
                c1 == count - 1,
        ;
        assert(zero_bytes((c1 * size) as int) + zero_bytes(size as int) =~= zero_bytes((count * size) as int));
    }
}

/// Converting the blank grid of a new font back to a PSF font file gives the
/// font file whose every glyph byte is zero: for PSF1, the 4-byte header
/// (mode 0, the height as glyph size) and `num_glyphs * height` zero bytes;
/// for PSF2, the 32-byte header (version 0, header size 32, flags 0, the
/// glyph count, bytes per glyph, height and width) and `num_glyphs` times
/// that many zero bytes; for PSF2 dimensions whose bytes per glyph exceed
/// u32, the writer's overflow error. Stated for grids that fit the BMP
/// header fields.
#[verifier::spinoff_prover]
pub proof fn blank_font_round_trip(width: u32, height: u32, num_glyphs: u32, version: u8)
    requires
        blank_bmp_result(width, height, num_glyphs, version) is Ok,
        grid_width(width as int) <= 0x7fff_ffff,
        grid_height(height as int, num_glyphs as int) <= 0x7fff_ffff,
    ensures
        ({
            let (meta, bmp) = blank_bmp_result(width, height, num_glyphs, version)->Ok_0;
            let size = height * row_bytes(width as int);
            &&& bmp_to_psf_result(meta, bmp) == match psf_encode(meta, empty_glyphs(meta)) {
                Ok(bytes) => Ok::<_, ConvertError>(bytes),
                Err(e) => Err(ConvertError::Psf(e)),
            }
            &&& version == 1 ==> bmp_to_psf_result(meta, bmp) == Ok::<_, ConvertError>(
                seq![0x36u8, 0x04u8, 0u8, (height % 256) as u8] + zero_bytes(num_glyphs * height),
            )
            &&& (version == 2 && width + 7 <= u32::MAX && size <= u32::MAX) ==> bmp_to_psf_result(
                meta,
                bmp,
            ) == Ok::<_, ConvertError>(
                seq![0x72u8, 0xb5u8, 0x4au8, 0x86u8] + u32_le(0) + u32_le(32) + u32_le(0) + u32_le(
                    num_glyphs,
                ) + u32_le(size as u32) + u32_le(height) + u32_le(width) + zero_bytes(
                    num_glyphs * size,
                ),
            )
            &&& (version == 2 && !(width + 7 <= u32::MAX && size <= u32::MAX)) ==> bmp_to_psf_result(
                meta,
                bmp,
            ) == Err::<Seq<u8>, _>(ConvertError::Psf(PsfError::Psf2DimensionsOverflow))
            &&& (version != 1 && version != 2) ==> bmp_to_psf_result(meta, bmp) == Err::<
                Seq<u8>,
                _,
            >(ConvertError::Psf(PsfError::UnknownVersion(version)))
        }),
{
    let meta = FontMeta { version, width, height, num_glyphs, flags: 0 };
    let gw = grid_width(width as int);
    let gh = grid_height(height as int, num_glyphs as int);
    let pixels = layout(Seq::empty(), width, height, 0, gw, gh);
    assert(0 <= gw * gh) by (nonlinear_arith)
        requires
            0 < gw,
            0 <= gh,
    ;
    bmp_round_trip(gw as usize, gh as usize, pixels);
    blank_grid_reads_as_empty_glyphs(meta);
    let rb = row_bytes(width as int);
    assert(0 <= height * rb) by (nonlinear_arith)
        requires
            0 <= rb,
    ;
    let size = height * rb;
    let glyphs = empty_glyphs(meta);
    assert(glyphs =~= Seq::new(num_glyphs as nat, |i: int| zero_bytes(size)));
    lemma_flatten_zeros(num_glyphs as nat, size as nat);
    lemma_all_sized_no_wrong(glyphs, size);
    if version == 1 {
        assert(width == 8 && row_bytes(8) == 1);
        lemma_all_sized_no_wrong(glyphs, height as int);
    }
}

} // verus!
