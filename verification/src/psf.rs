//! PSF1 / PSF2 parsing and serialization.

use vstd::prelude::*;

use crate::meta::FontMeta;

verus! {

/// A parsed font: its metadata and one byte string per glyph.
#[derive(Debug)]
pub struct PsfFont {
    pub meta: FontMeta,
    pub glyphs: Vec<Vec<u8>>,
}

/// The glyph bitmaps as sequences of bytes.
pub open spec fn glyphs_view(glyphs: Seq<Vec<u8>>) -> Seq<Seq<u8>> {
    glyphs.map_values(|g: Vec<u8>| g@)
}

impl View for PsfFont {
    type V = (FontMeta, Seq<Seq<u8>>);

    open spec fn view(&self) -> (FontMeta, Seq<Seq<u8>>) {
        (self.meta, glyphs_view(self.glyphs@))
    }
}

/// Why a byte string could not be read as a PSF font, or a font could not be written.
#[derive(Debug, Clone, Copy, PartialEq, Eq, Structural)]
pub enum PsfError {
    /// Neither the PSF1 nor the PSF2 magic bytes open the data.
    NotPsf,
    /// PSF1 data shorter than its 4-byte header.
    Psf1HeaderTruncated,
    /// PSF1 header with a glyph size of 0.
    Psf1ZeroCharsize,
    /// PSF1 data shorter than header plus glyphs.
    Psf1Truncated { need: usize, got: usize },
    /// Fewer than four bytes at this offset.
    TruncatedAt(usize),
    /// PSF2 data shorter than its 32-byte header.
    Psf2HeaderTruncated,
    /// PSF2 header size field below 32.
    Psf2HeaderSizeTooSmall(usize),
    /// height * ceil(width / 8) is too large: beyond usize when reading,
    /// beyond u32 (or a width above u32::MAX - 7) when writing.
    Psf2DimensionsOverflow,
    /// PSF2 bytes-per-glyph field smaller than width and height imply.
    Psf2GlyphSizeTooSmall { bytes_per_glyph: usize, expected: usize },
    /// Header size plus glyph data does not fit in usize.
    Psf2GlyphCountOverflow,
    /// PSF2 data shorter than header plus glyphs.
    Psf2Truncated { need: usize, got: usize },
    /// Metadata version other than 1 or 2.
    UnknownVersion(u8),
    /// A PSF1 font must be 8 pixels wide.
    Psf1WidthNot8(u32),
    /// A PSF1 glyph whose length differs from the glyph height.
    Psf1GlyphSizeMismatch { index: usize, expected: usize, got: usize },
    /// A PSF2 glyph whose length differs from the bytes per glyph.
    GlyphSizeMismatch { expected: usize, got: usize },
}

/// The unsigned 32-bit little-endian integer stored in `data[offset..offset + 4]`.
pub open spec fn le_u32(data: Seq<u8>, offset: int) -> u32 {
    (data[offset] + 256 * data[offset + 1] + 65536 * data[offset + 2] + 16777216 * data[
        offset + 3
    ]) as u32
}

/// Data opening with the PSF1 magic bytes 0x36 0x04.
pub open spec fn has_psf1_magic(data: Seq<u8>) -> bool {
    data.len() >= 2 && data[0] == 0x36 && data[1] == 0x04
}

/// Data opening with the PSF2 magic bytes 0x72 0xb5 0x4a 0x86.
pub open spec fn has_psf2_magic(data: Seq<u8>) -> bool {
    data.len() >= 4 && data[0] == 0x72 && data[1] == 0xb5 && data[2] == 0x4a && data[3] == 0x86
}

/// `count` consecutive slices of `size` bytes each, the first starting at `start`.
pub open spec fn slices(data: Seq<u8>, start: int, count: nat, size: int) -> Seq<Seq<u8>> {
    Seq::new(count, |i: int| data.subrange(start + i * size, start + (i + 1) * size))
}

/// Glyphs per PSF1 font: 512 when bit 0 of the mode byte is set, else 256.
pub open spec fn psf1_glyph_count(mode: u8) -> nat {
    if mode % 2 == 1 {
        512
    } else {
        256
    }
}

/// What a PSF1 font file holds, or why it is refused.
pub open spec fn psf1_decode(data: Seq<u8>) -> Result<(FontMeta, Seq<Seq<u8>>), PsfError> {
    if data.len() < 4 {
        Err(PsfError::Psf1HeaderTruncated)
    } else if data[3] == 0 {
        Err(PsfError::Psf1ZeroCharsize)
    } else {
        let mode = data[2];
        let charsize = data[3];
        let n = psf1_glyph_count(mode);
        let need = n * charsize + 4;
        if data.len() < need {
            Err(PsfError::Psf1Truncated { need: need as usize, got: data.len() as usize })
        } else {
            Ok(
                (
                    FontMeta {
                        version: 1,
                        width: 8,
                        height: charsize as u32,
                        num_glyphs: n as u32,
                        flags: mode as u32,
                    },
                    slices(data, 4, n, charsize as int),
                ),
            )
        }
    }
}

/// A PSF1 file holds 512 glyphs when bit 0 of its mode byte is set and 256
/// otherwise, whatever the other mode bits; each glyph is as many bytes as
/// the charsize byte says and they follow the 4-byte header in order. The
/// file is read exactly when the header is complete, the charsize is not 0
/// and the glyph data is all there.
pub proof fn psf1_layout(data: Seq<u8>)
    requires
        data.len() >= 2,
        data[0] == 0x36,
        data[1] == 0x04,
    ensures
        ({
            let count: int = if data[2] % 2 == 1 {
                512
            } else {
                256
            };
            let c = data[3] as int;
            &&& psf_decode(data) is Ok <==> (data.len() >= 4 && c != 0 && data.len() >= 4 + count
                * c)
            &&& psf_decode(data) is Ok ==> {
                let (meta, glyphs) = psf_decode(data)->Ok_0;
                &&& meta.version == 1
                &&& meta.width == 8
                &&& meta.height == c
                &&& meta.flags == data[2]
                &&& meta.num_glyphs == count
                &&& glyphs.len() == count
                &&& forall|i: int|
                    0 <= i < count ==> #[trigger] glyphs[i] == data.subrange(
                        4 + i * c,
                        4 + (i + 1) * c,
                    )
            }
        }),
{
    assert(!has_psf2_magic(data));
    if data.len() >= 4 {
        assert(psf1_glyph_count(data[2]) == if data[2] % 2 == 1 {
            512int
        } else {
            256int
        });
    }
}

/// Bytes per row of a glyph `width` pixels wide.
pub open spec fn row_bytes(width: int) -> int {
    (width + 7) / 8
}

/// What a PSF2 font file holds, or why it is refused.
pub open spec fn psf2_decode(data: Seq<u8>) -> Result<(FontMeta, Seq<Seq<u8>>), PsfError> {
    if data.len() < 32 {
        Err(PsfError::Psf2HeaderTruncated)
    } else {
        let headersize = le_u32(data, 8);
        let flags = le_u32(data, 12);
        let n = le_u32(data, 16);
        let bpg = le_u32(data, 20);
        let height = le_u32(data, 24);
        let width = le_u32(data, 28);
        let expected_bpg = height * row_bytes(width as int);
        let need = n * bpg + headersize;
        if headersize < 32 {
            Err(PsfError::Psf2HeaderSizeTooSmall(headersize as usize))
        } else if expected_bpg > usize::MAX {
            Err(PsfError::Psf2DimensionsOverflow)
        } else if bpg < expected_bpg {
            Err(
                PsfError::Psf2GlyphSizeTooSmall {
                    bytes_per_glyph: bpg as usize,
                    expected: expected_bpg as usize,
                },
            )
        } else if need > usize::MAX {
            Err(PsfError::Psf2GlyphCountOverflow)
        } else if data.len() < need {
            Err(PsfError::Psf2Truncated { need: need as usize, got: data.len() as usize })
        } else {
            Ok(
                (
                    FontMeta { version: 2, width, height, num_glyphs: n, flags },
                    slices(data, headersize as int, n as nat, bpg as int),
                ),
            )
        }
    }
}

/// What a PSF font file holds, or why it is refused.
pub open spec fn psf_decode(data: Seq<u8>) -> Result<(FontMeta, Seq<Seq<u8>>), PsfError> {
    if has_psf2_magic(data) {
        psf2_decode(data)
    } else if has_psf1_magic(data) {
        psf1_decode(data)
    } else {
        Err(PsfError::NotPsf)
    }
}

/// The font a parse returned, or its error.
pub open spec fn parsed_view(r: Result<PsfFont, PsfError>) -> Result<(FontMeta, Seq<Seq<u8>>), PsfError> {
    match r {
        Ok(f) => Ok(f@),
        Err(e) => Err(e),
    }
}

/// Reads the little-endian `u32` at `offset`.
pub fn read_u32(data: &[u8], offset: usize) -> (res: Result<u32, PsfError>)
    requires
        offset + 4 <= usize::MAX,
    ensures
        offset + 4 <= data@.len() ==> res == Ok::<u32, PsfError>(le_u32(data@, offset as int)),
        offset + 4 > data@.len() ==> res == Err::<u32, PsfError>(PsfError::TruncatedAt(offset)),
{
    if offset + 4 > data.len() {
        return Err(PsfError::TruncatedAt(offset));
    }
    let v: u32 = data[offset] as u32 + 256 * (data[offset + 1] as u32) + 65536 * (data[offset
        + 2] as u32) + 16777216 * (data[offset + 3] as u32);
    Ok(v)
}

/// Copies `count` slices of `size` bytes, the first at `start`.
fn copy_slices(data: &[u8], start: usize, count: usize, size: usize) -> (glyphs: Vec<Vec<u8>>)
    requires
        start + count * size <= data@.len(),
    ensures
        glyphs_view(glyphs@) == slices(data@, start as int, count as nat, size as int),
{
    let mut glyphs: Vec<Vec<u8>> = Vec::with_capacity(count);
    let dlen = data.len();
    let mut i: usize = 0;
    while i < count
        invariant
            i <= count,
            dlen == data@.len(),
            start + count * size <= data@.len(),
            glyphs@.len() == i,
            forall|j: int|
                0 <= j < i ==> (#[trigger] glyphs@[j])@ == data@.subrange(
                    start + j * size,
                    start + (j + 1) * size,
                ),
        decreases count - i,
    {
        proof {
            assert((i + 1) * size <= count * size) by (nonlinear_arith)
                requires
                    i + 1 <= count,
            ;
            assert((i + 1) * size == i * size + size) by (nonlinear_arith);
            assert(i * size <= count * size) by (nonlinear_arith)
                requires
                    i <= count,
            ;
        }
        let lo = start + i * size;
        let hi = lo + size;
        let mut g: Vec<u8> = Vec::with_capacity(size);
        let mut k: usize = lo;
        while k < hi
            invariant
                lo <= k <= hi,
                hi <= data@.len(),
                g@ == data@.subrange(lo as int, k as int),
            decreases hi - k,
        {
            g.push(data[k]);
            k = k + 1;
        }
        glyphs.push(g);
        i = i + 1;
    }
    assert(glyphs_view(glyphs@) =~= slices(data@, start as int, count as nat, size as int));
    glyphs
}

fn parse_psf1(data: &[u8]) -> (res: Result<PsfFont, PsfError>)
    requires
        has_psf1_magic(data@),
    ensures
        parsed_view(res) == psf1_decode(data@),
{
    if data.len() < 4 {
        return Err(PsfError::Psf1HeaderTruncated);
    }
    let mode = data[2];
    let charsize = data[3] as usize;
    if charsize == 0 {
        return Err(PsfError::Psf1ZeroCharsize);
    }
    let num_glyphs: usize = if mode & 0x01 != 0 {
        512
    } else {
        256
    };
    assert((mode & 0x01 != 0) == (mode % 2 == 1)) by (bit_vector);
    let expected = num_glyphs * charsize + 4;
    if data.len() < expected {
        return Err(PsfError::Psf1Truncated { need: expected, got: data.len() });
    }
    let glyphs = copy_slices(data, 4, num_glyphs, charsize);
    Ok(
        PsfFont {
            meta: FontMeta {
                version: 1,
                width: 8,
                height: charsize as u32,
                num_glyphs: num_glyphs as u32,
                flags: mode as u32,
            },
            glyphs,
        },
    )
}

fn parse_psf2(data: &[u8]) -> (res: Result<PsfFont, PsfError>)
    requires
        has_psf2_magic(data@),
    ensures
        parsed_view(res) == psf2_decode(data@),
{
    if data.len() < 32 {
        return Err(PsfError::Psf2HeaderTruncated);
    }
    let headersize = read_u32(data, 8)? as usize;
    if headersize < 32 {
        return Err(PsfError::Psf2HeaderSizeTooSmall(headersize));
    }
    let flags = read_u32(data, 12)?;
    let num_glyphs = read_u32(data, 16)? as usize;
    let bytes_per_g = read_u32(data, 20)? as usize;
    let height = read_u32(data, 24)?;
    let width = read_u32(data, 28)?;

    let row = ((width as u64) + 7) / 8;
    assert((height as u64) * row <= 0x2000_0000_0000_0000) by (nonlinear_arith)
        requires
            height <= 0xffff_ffff,
            row <= 0x2000_0000,
    ;
    let expected_wide = (height as u64) * row;
    assert(expected_wide == height * row_bytes(width as int));
    if expected_wide > usize::MAX as u64 {
        return Err(PsfError::Psf2DimensionsOverflow);
    }
    let expected_bytes_per_g = expected_wide as usize;
    if bytes_per_g < expected_bytes_per_g {
        return Err(
            PsfError::Psf2GlyphSizeTooSmall {
                bytes_per_glyph: bytes_per_g,
                expected: expected_bytes_per_g,
            },
        );
    }
    let expected = match num_glyphs.checked_mul(bytes_per_g) {
        Some(m) => match m.checked_add(headersize) {
            Some(v) => v,
            None => {
                return Err(PsfError::Psf2GlyphCountOverflow);
            },
        },
        None => {
            proof {
                assert(num_glyphs * bytes_per_g + headersize > usize::MAX);
            }
            return Err(PsfError::Psf2GlyphCountOverflow);
        },
    };
    if data.len() < expected {
        return Err(PsfError::Psf2Truncated { need: expected, got: data.len() });
    }
    let glyphs = copy_slices(data, headersize, num_glyphs, bytes_per_g);
    Ok(
        PsfFont {
            meta: FontMeta {
                version: 2,
                width,
                height,
                num_glyphs: num_glyphs as u32,
                flags,
            },
            glyphs,
        },
    )
}

/// Reads a PSF1 or PSF2 font, chosen by the magic bytes that open `data`.
pub fn parse(data: &[u8]) -> (res: Result<PsfFont, PsfError>)
    ensures
        parsed_view(res) == psf_decode(data@),
{
    if data.len() >= 4 && data[0] == 0x72 && data[1] == 0xb5 && data[2] == 0x4a && data[3]
        == 0x86 {
        parse_psf2(data)
    } else if data.len() >= 2 && data[0] == 0x36 && data[1] == 0x04 {
        parse_psf1(data)
    } else {
        Err(PsfError::NotPsf)
    }
}

/// The four little-endian bytes of `v`.
pub open spec fn u32_le(v: u32) -> Seq<u8> {
    seq![(v % 256) as u8, ((v / 256) % 256) as u8, ((v / 65536) % 256) as u8, (v / 16777216) as u8]
}

/// The index of the first glyph whose length is not `size`, if any.
pub open spec fn first_wrong_size(glyphs: Seq<Seq<u8>>, size: int) -> Option<int>
    decreases glyphs.len(),
{
    if glyphs.len() == 0 {
        None
    } else {
        match first_wrong_size(glyphs.drop_last(), size) {
            Some(i) => Some(i),
            None => if glyphs.last().len() != size {
                Some(glyphs.len() - 1)
            } else {
                None
            },
        }
    }
}

/// The PSF1 bytes of a font, or why it cannot be written as PSF1.
pub open spec fn psf1_encode(meta: FontMeta, glyphs: Seq<Seq<u8>>) -> Result<Seq<u8>, PsfError> {
    if meta.width != 8 {
        Err(PsfError::Psf1WidthNot8(meta.width))
    } else {
        match first_wrong_size(glyphs, meta.height as int) {
            Some(i) => Err(
                PsfError::Psf1GlyphSizeMismatch {
                    index: i as usize,
                    expected: meta.height as usize,
                    got: glyphs[i].len() as usize,
                },
            ),
            None => Ok(
                seq![0x36u8, 0x04u8, (meta.flags % 256) as u8, (meta.height % 256) as u8]
                    + glyphs.flatten(),
            ),
        }
    }
}

/// Bytes per glyph that a PSF2 font of these dimensions stores.
pub open spec fn psf2_glyph_size(meta: FontMeta) -> int {
    meta.height * row_bytes(meta.width as int)
}

/// Dimensions whose PSF2 glyph size is computable in u32 (the writer computes
/// `height * ((width + 7) / 8)` in u32).
pub open spec fn psf2_dims_fit(meta: FontMeta) -> bool {
    meta.width + 7 <= u32::MAX && psf2_glyph_size(meta) <= u32::MAX
}

/// The 32-byte PSF2 header written for `meta`.
pub open spec fn psf2_header(meta: FontMeta) -> Seq<u8> {
    seq![0x72u8, 0xb5u8, 0x4au8, 0x86u8] + u32_le(0) + u32_le(32) + u32_le(meta.flags) + u32_le(
        meta.num_glyphs,
    ) + u32_le(psf2_glyph_size(meta) as u32) + u32_le(meta.height) + u32_le(meta.width)
}

/// The PSF2 bytes of a font, or why it cannot be written as PSF2.
pub open spec fn psf2_encode(meta: FontMeta, glyphs: Seq<Seq<u8>>) -> Result<Seq<u8>, PsfError> {
    let size = psf2_glyph_size(meta);
    if !psf2_dims_fit(meta) {
        Err(PsfError::Psf2DimensionsOverflow)
    } else {
        match first_wrong_size(glyphs, size) {
            Some(i) => Err(
                PsfError::GlyphSizeMismatch { expected: size as usize, got: glyphs[i].len() as usize },
            ),
            None => Ok(psf2_header(meta) + glyphs.flatten()),
        }
    }
}

/// The bytes of a font in the PSF version its metadata names.
pub open spec fn psf_encode(meta: FontMeta, glyphs: Seq<Seq<u8>>) -> Result<Seq<u8>, PsfError> {
    if meta.version == 1 {
        psf1_encode(meta, glyphs)
    } else if meta.version == 2 {
        psf2_encode(meta, glyphs)
    } else {
        Err(PsfError::UnknownVersion(meta.version))
    }
}

/// The bytes a serializer returned, or its error.
pub open spec fn bytes_view(r: Result<Vec<u8>, PsfError>) -> Result<Seq<u8>, PsfError> {
    match r {
        Ok(v) => Ok(v@),
        Err(e) => Err(e),
    }
}

pub(crate) fn push_u32_le(out: &mut Vec<u8>, v: u32)
    ensures
        final(out)@ == old(out)@ + u32_le(v),
{
    out.push((v % 256) as u8);
    out.push(((v / 256) % 256) as u8);
    out.push(((v / 65536) % 256) as u8);
    out.push((v / 16777216) as u8);
    assert(final(out)@ =~= old(out)@ + u32_le(v));
}

fn append_bytes(out: &mut Vec<u8>, bytes: &Vec<u8>)
    ensures
        final(out)@ == old(out)@ + bytes@,
{
    let ghost start = out@;
    let mut k: usize = 0;
    while k < bytes.len()
        invariant
            k <= bytes@.len(),
            out@ == start + bytes@.subrange(0, k as int),
        decreases bytes@.len() - k,
    {
        out.push(bytes[k]);
        k = k + 1;
        assert(out@ =~= start + bytes@.subrange(0, k as int));
    }
    assert(bytes@.subrange(0, bytes@.len() as int) =~= bytes@);
}

proof fn lemma_first_wrong_size_step(glyphs: Seq<Seq<u8>>, size: int, i: int)
    requires
        0 <= i < glyphs.len(),
        first_wrong_size(glyphs.take(i), size) is None,
    ensures
        glyphs[i].len() == size ==> first_wrong_size(glyphs.take(i + 1), size) is None,
        glyphs[i].len() != size ==> first_wrong_size(glyphs.take(i + 1), size) == Some(i),
{
    assert(glyphs.take(i + 1).drop_last() =~= glyphs.take(i));
}

proof fn lemma_first_wrong_size_prefix(glyphs: Seq<Seq<u8>>, size: int, i: int)
    requires
        0 <= i <= glyphs.len(),
        first_wrong_size(glyphs.take(i), size) matches Some(j) && 0 <= j < i,
    ensures
        first_wrong_size(glyphs, size) == first_wrong_size(glyphs.take(i), size),
    decreases glyphs.len() - i,
{
    if i < glyphs.len() {
        assert(glyphs.take(i + 1).drop_last() =~= glyphs.take(i));
        lemma_first_wrong_size_prefix(glyphs, size, i + 1);
    } else {
        assert(glyphs.take(i) =~= glyphs);
    }
}

/// Appends every glyph after `out`, failing on the first glyph whose length is not `size`.
fn append_glyphs(out: &mut Vec<u8>, glyphs: &Vec<Vec<u8>>, size: usize) -> (bad: Option<usize>)
    ensures
        match first_wrong_size(glyphs_view(glyphs@), size as int) {
            Some(j) => bad matches Some(b) && b == j && b < glyphs@.len(),
            None => bad is None,
        },
        bad is None ==> final(out)@ == old(out)@ + glyphs_view(glyphs@).flatten(),
{
    let ghost start = out@;
    let ghost gv = glyphs_view(glyphs@);
    let mut i: usize = 0;
    while i < glyphs.len()
        invariant
            i <= glyphs@.len(),
            gv == glyphs_view(glyphs@),
            first_wrong_size(gv.take(i as int), size as int) is None,
            out@ == start + gv.take(i as int).flatten(),
        decreases glyphs@.len() - i,
    {
        proof {
            lemma_first_wrong_size_step(gv, size as int, i as int);
        }
        if glyphs[i].len() != size {
            proof {
                lemma_first_wrong_size_prefix(gv, size as int, i + 1);
            }
            return Some(i);
        }
        append_bytes(out, &glyphs[i]);
        proof {
            assert(gv.take(i + 1) =~= gv.take(i as int).push(gv[i as int]));
            gv.take(i as int).lemma_flatten_push(gv[i as int]);
        }
        i = i + 1;
    }
    assert(gv.take(i as int) =~= gv);
    None
}

fn serialize_psf1(font: &PsfFont) -> (res: Result<Vec<u8>, PsfError>)
    ensures
        bytes_view(res) == psf1_encode(font@.0, font@.1),
{
    if font.meta.width != 8 {
        return Err(PsfError::Psf1WidthNot8(font.meta.width));
    }
    let charsize = font.meta.height as usize;
    let mut out: Vec<u8> = Vec::new();
    out.push(0x36);
    out.push(0x04);
    out.push((font.meta.flags % 256) as u8);
    out.push((charsize % 256) as u8);
    let ghost header = out@;
    assert(header =~= seq![0x36u8, 0x04u8, (font.meta.flags % 256) as u8, (font.meta.height % 256) as u8]);
    match append_glyphs(&mut out, &font.glyphs, charsize) {
        Some(i) => {
            assert(glyphs_view(font.glyphs@)[i as int] == font.glyphs@[i as int]@);
            assert(first_wrong_size(font@.1, font.meta.height as int) == Some(i as int));
            Err(
                PsfError::Psf1GlyphSizeMismatch {
                    index: i,
                    expected: charsize,
                    got: font.glyphs[i].len(),
                },
            )
        },
        None => {
            assert(first_wrong_size(font@.1, font.meta.height as int) is None);
            assert(out@ == header + font@.1.flatten());
            Ok(out)
        },
    }
}

fn serialize_psf2(font: &PsfFont) -> (res: Result<Vec<u8>, PsfError>)
    ensures
        bytes_view(res) == psf2_encode(font@.0, font@.1),
{
    if font.meta.width > u32::MAX - 7 {
        return Err(PsfError::Psf2DimensionsOverflow);
    }
    let row = ((font.meta.width + 7) / 8) as u64;
    let height = font.meta.height as u64;
    assert(height * row <= 0x2000_0000_0000_0000) by (nonlinear_arith)
        requires
            height <= 0xffff_ffff,
            row <= 0x2000_0000,
    ;
    let size = height * row;
    assert(size == psf2_glyph_size(font.meta));
    if size > u32::MAX as u64 {
        return Err(PsfError::Psf2DimensionsOverflow);
    }
    let bytes_per_glyph = size as usize;
    let mut out: Vec<u8> = Vec::new();
    out.push(0x72);
    out.push(0xb5);
    out.push(0x4a);
    out.push(0x86);
    push_u32_le(&mut out, 0);
    push_u32_le(&mut out, 32);
    push_u32_le(&mut out, font.meta.flags);
    push_u32_le(&mut out, font.meta.num_glyphs);
    push_u32_le(&mut out, bytes_per_glyph as u32);
    push_u32_le(&mut out, font.meta.height);
    push_u32_le(&mut out, font.meta.width);
    assert(out@ =~= psf2_header(font.meta));
    match append_glyphs(&mut out, &font.glyphs, bytes_per_glyph) {
        Some(i) => {
            assert(glyphs_view(font.glyphs@)[i as int] == font.glyphs@[i as int]@);
            Err(PsfError::GlyphSizeMismatch { expected: bytes_per_glyph, got: font.glyphs[i].len() })
        },
        None => Ok(out),
    }
}

/// Writes a font as PSF1 or PSF2, as its metadata version says.
pub fn serialize(font: &PsfFont) -> (res: Result<Vec<u8>, PsfError>)
    ensures
        bytes_view(res) == psf_encode(font@.0, font@.1),
{
    match font.meta.version {
        1 => serialize_psf1(font),
        2 => serialize_psf2(font),
        v => Err(PsfError::UnknownVersion(v)),
    }
}

pub(crate) proof fn lemma_le_u32_of_bytes(prefix: Seq<u8>, v: u32, rest: Seq<u8>)
    ensures
        le_u32(prefix + u32_le(v) + rest, prefix.len() as int) == v,
{
    let d = prefix + u32_le(v) + rest;
    let p = prefix.len() as int;
    assert(d[p] == v % 256);
    assert(d[p + 1] == (v / 256) % 256);
    assert(d[p + 2] == (v / 65536) % 256);
    assert(d[p + 3] == v / 16777216);
    assert(v % 256 + 256 * ((v / 256) % 256) + 65536 * ((v / 65536) % 256) + 16777216 * (v
        / 16777216) == v) by (nonlinear_arith);
}

pub(crate) proof fn lemma_all_sized_no_wrong(glyphs: Seq<Seq<u8>>, size: int)
    requires
        forall|i: int| 0 <= i < glyphs.len() ==> (#[trigger] glyphs[i]).len() == size,
    ensures
        first_wrong_size(glyphs, size) is None,
    decreases glyphs.len(),
{
    if glyphs.len() > 0 {
        lemma_all_sized_no_wrong(glyphs.drop_last(), size);
    }
}

proof fn lemma_no_wrong_all_sized(glyphs: Seq<Seq<u8>>, size: int)
    requires
        first_wrong_size(glyphs, size) is None,
    ensures
        forall|i: int| 0 <= i < glyphs.len() ==> (#[trigger] glyphs[i]).len() == size,
    decreases glyphs.len(),
{
    if glyphs.len() > 0 {
        lemma_no_wrong_all_sized(glyphs.drop_last(), size);
        assert forall|i: int| 0 <= i < glyphs.len() implies (#[trigger] glyphs[i]).len() == size by {
            if i < glyphs.len() - 1 {
                assert(glyphs.drop_last()[i] == glyphs[i]);
            }
        }
    }
}

/// Concatenating consecutive equal-sized slices gives back the span they cover.
proof fn lemma_flatten_slices(data: Seq<u8>, start: int, count: nat, size: int)
    requires
        0 <= start,
        0 <= size,
        start + count * size <= data.len(),
    ensures
        slices(data, start, count, size).flatten() == data.subrange(start, start + count * size),
    decreases count,
{
    if count > 0 {
        let c1 = (count - 1) as nat;
        assert(c1 * size + size == count * size) by (nonlinear_arith)
            requires
                c1 == count - 1,
        ;
        assert(0 <= c1 * size) by (nonlinear_arith)
            requires
                0 <= size,
        ;
        lemma_flatten_slices(data, start, c1, size);
        let s = slices(data, start, count, size);
        assert(s.drop_last() =~= slices(data, start, c1, size));
        assert(s =~= s.drop_last().push(s.last()));
        s.drop_last().lemma_flatten_push(s.last());
        assert(s.last() == data.subrange(start + c1 * size, start + count * size));
        assert(s.flatten() == data.subrange(start, start + c1 * size) + s.last());
        assert(data.subrange(start, start + c1 * size) + data.subrange(
            start + c1 * size,
            start + count * size,
        ) =~= data.subrange(start, start + count * size));
    } else {
        assert(count * size == 0) by (nonlinear_arith)
            requires
                count == 0,
        ;
        assert(slices(data, start, count, size) =~= Seq::<Seq<u8>>::empty());
        assert(data.subrange(start, start) =~= Seq::<u8>::empty());
    }
}

/// Equal-sized glyphs are recovered by slicing their concatenation.
proof fn lemma_slices_of_flatten(glyphs: Seq<Seq<u8>>, size: int)
    requires
        0 <= size,
        forall|i: int| 0 <= i < glyphs.len() ==> (#[trigger] glyphs[i]).len() == size,
    ensures
        glyphs.flatten().len() == glyphs.len() * size,
        slices(glyphs.flatten(), 0, glyphs.len(), size) == glyphs,
    decreases glyphs.len(),
{
    if glyphs.len() > 0 {
        let init = glyphs.drop_last();
        lemma_slices_of_flatten(init, size);
        assert(glyphs =~= init.push(glyphs.last()));
        init.lemma_flatten_push(glyphs.last());
        let n1 = init.len() as int;
        assert(n1 * size + size == glyphs.len() * size) by (nonlinear_arith)
            requires
                n1 == glyphs.len() - 1,
        ;
        let f = glyphs.flatten();
        assert forall|i: int| 0 <= i < glyphs.len() implies (#[trigger] slices(
            f,
            0,
            glyphs.len(),
            size,
        )[i]) == glyphs[i] by {
            if i < n1 {
                assert((i + 1) * size <= n1 * size) by (nonlinear_arith)
                    requires
                        i + 1 <= n1,
                        0 <= size,
                ;
                assert(0 <= i * size) by (nonlinear_arith)
                    requires
                        0 <= i,
                        0 <= size,
                ;
                assert((i + 1) * size == i * size + size) by (nonlinear_arith);
                assert(slices(init.flatten(), 0, init.len(), size)[i] == init[i]);
                assert(f.subrange(i * size, (i + 1) * size) =~= init.flatten().subrange(
                    i * size,
                    (i + 1) * size,
                ));
            } else {
                assert(i * size == n1 * size);
                assert(f.subrange(i * size, (i + 1) * size) =~= glyphs.last());
            }
        }
        assert(slices(f, 0, glyphs.len(), size) =~= glyphs);
    } else {
        assert(slices(glyphs.flatten(), 0, 0, size) =~= glyphs);
    }
}

proof fn lemma_slices_shift(prefix: Seq<u8>, body: Seq<u8>, count: nat, size: int)
    requires
        0 <= size,
        count * size <= body.len(),
    ensures
        slices(prefix + body, prefix.len() as int, count, size) == slices(body, 0, count, size),
{
    let d = prefix + body;
    let p = prefix.len() as int;
    assert forall|i: int| 0 <= i < count implies (#[trigger] slices(d, p, count, size)[i]) == slices(
        body,
        0,
        count,
        size,
    )[i] by {
        assert((i + 1) * size <= count * size) by (nonlinear_arith)
            requires
                i + 1 <= count,
                0 <= size,
        ;
        assert(0 <= i * size) by (nonlinear_arith)
            requires
                0 <= i,
                0 <= size,
        ;
        assert((i + 1) * size == i * size + size) by (nonlinear_arith);
        assert(d.subrange(p + i * size, p + (i + 1) * size) =~= body.subrange(
            i * size,
            (i + 1) * size,
        ));
    }
    assert(slices(d, p, count, size) =~= slices(body, 0, count, size));
}

/// Writing a well-formed PSF1 font and reading the bytes back gives the same font.
pub proof fn psf1_write_then_read(meta: FontMeta, glyphs: Seq<Seq<u8>>)
    requires
        meta.version == 1,
        meta.width == 8,
        1 <= meta.height <= 255,
        meta.flags <= 255,
        glyphs.len() == psf1_glyph_count(meta.flags as u8),
        meta.num_glyphs == glyphs.len(),
        forall|i: int| 0 <= i < glyphs.len() ==> (#[trigger] glyphs[i]).len() == meta.height,
    ensures
        psf_encode(meta, glyphs) is Ok,
        psf_decode(psf_encode(meta, glyphs)->Ok_0) == Ok::<_, PsfError>((meta, glyphs)),
{
    let size = meta.height as int;
    lemma_all_sized_no_wrong(glyphs, size);
    lemma_slices_of_flatten(glyphs, size);
    let header = seq![0x36u8, 0x04u8, (meta.flags % 256) as u8, (meta.height % 256) as u8];
    let bytes = header + glyphs.flatten();
    assert(psf_encode(meta, glyphs) == Ok::<_, PsfError>(bytes));
    assert(bytes[2] == meta.flags);
    assert(bytes[3] == meta.height);
    lemma_slices_shift(header, glyphs.flatten(), glyphs.len(), size);
    let decoded_meta = FontMeta {
        version: 1,
        width: 8,
        height: bytes[3] as u32,
        num_glyphs: psf1_glyph_count(bytes[2]) as u32,
        flags: bytes[2] as u32,
    };
    assert(decoded_meta == meta);
    assert(psf_decode(bytes) == Ok::<_, PsfError>((meta, glyphs)));
}

/// Writing a well-formed PSF2 font and reading the bytes back gives the same font.
#[verifier::spinoff_prover]
#[verifier::rlimit(50)]
pub proof fn psf2_write_then_read(meta: FontMeta, glyphs: Seq<Seq<u8>>)
    requires
        meta.version == 2,
        psf2_dims_fit(meta),
        meta.num_glyphs == glyphs.len(),
        forall|i: int| 0 <= i < glyphs.len() ==> (#[trigger] glyphs[i]).len() == psf2_glyph_size(meta),
        32 + glyphs.len() * psf2_glyph_size(meta) <= usize::MAX,
    ensures
        psf_encode(meta, glyphs) is Ok,
        psf_decode(psf_encode(meta, glyphs)->Ok_0) == Ok::<_, PsfError>((meta, glyphs)),
{
    let size = psf2_glyph_size(meta);
    assert(0 <= size) by (nonlinear_arith)
        requires
            size == meta.height * row_bytes(meta.width as int),
            0 <= meta.height,
            0 <= meta.width,
    ;
    lemma_all_sized_no_wrong(glyphs, size);
    lemma_slices_of_flatten(glyphs, size);
    let header = psf2_header(meta);
    let body = glyphs.flatten();
    let bytes = header + body;
    assert(psf_encode(meta, glyphs) == Ok::<_, PsfError>(bytes));
    let magic = seq![0x72u8, 0xb5u8, 0x4au8, 0x86u8];
    assert(header.len() == 32);
    assert(bytes.subrange(0, 4) =~= magic);
    let h8 = magic + u32_le(0) + u32_le(32);
    lemma_le_u32_of_bytes(magic + u32_le(0), 32, u32_le(meta.flags) + u32_le(meta.num_glyphs)
        + u32_le(size as u32) + u32_le(meta.height) + u32_le(meta.width) + body);
    assert(magic + u32_le(0) + u32_le(32) + (u32_le(meta.flags) + u32_le(meta.num_glyphs) + u32_le(
        size as u32,
    ) + u32_le(meta.height) + u32_le(meta.width) + body) =~= bytes);
    lemma_le_u32_of_bytes(h8, meta.flags, u32_le(meta.num_glyphs) + u32_le(size as u32) + u32_le(
        meta.height,
    ) + u32_le(meta.width) + body);
    assert(h8 + u32_le(meta.flags) + (u32_le(meta.num_glyphs) + u32_le(size as u32) + u32_le(
        meta.height,
    ) + u32_le(meta.width) + body) =~= bytes);
    let h12 = h8 + u32_le(meta.flags);
    lemma_le_u32_of_bytes(h12, meta.num_glyphs, u32_le(size as u32) + u32_le(meta.height) + u32_le(
        meta.width,
    ) + body);
    assert(h12 + u32_le(meta.num_glyphs) + (u32_le(size as u32) + u32_le(meta.height) + u32_le(
        meta.width,
    ) + body) =~= bytes);
    let h16 = h12 + u32_le(meta.num_glyphs);
    lemma_le_u32_of_bytes(h16, size as u32, u32_le(meta.height) + u32_le(meta.width) + body);
    assert(h16 + u32_le(size as u32) + (u32_le(meta.height) + u32_le(meta.width) + body) =~= bytes);
    let h20 = h16 + u32_le(size as u32);
    lemma_le_u32_of_bytes(h20, meta.height, u32_le(meta.width) + body);
    assert(h20 + u32_le(meta.height) + (u32_le(meta.width) + body) =~= bytes);
    let h24 = h20 + u32_le(meta.height);
    lemma_le_u32_of_bytes(h24, meta.width, body);
    assert(h24 + u32_le(meta.width) + body =~= bytes);
    assert(le_u32(bytes, 8) == 32);
    assert(le_u32(bytes, 12) == meta.flags);
    assert(le_u32(bytes, 16) == meta.num_glyphs);
    assert(le_u32(bytes, 20) == size);
    assert(le_u32(bytes, 24) == meta.height);
    assert(le_u32(bytes, 28) == meta.width);
    lemma_slices_shift(header, body, glyphs.len(), size);
    assert(psf_decode(bytes) == Ok::<_, PsfError>((meta, glyphs)));
}

/// Whatever the writer produces reads back as the font it was given, for
/// fonts whose glyph count matches their metadata and, for PSF1, whose
/// height and mode fit the one-byte header fields and whose glyph count is
/// the one the mode implies (256, or 512 with bit 0 set); the output must
/// fit in memory.
#[verifier::spinoff_prover]
pub proof fn serialize_then_parse(meta: FontMeta, glyphs: Seq<Seq<u8>>)
    requires
        psf_encode(meta, glyphs) is Ok,
        psf_encode(meta, glyphs)->Ok_0.len() <= usize::MAX,
        meta.num_glyphs == glyphs.len(),
        meta.version == 1 ==> {
            &&& 1 <= meta.height <= 255
            &&& meta.flags <= 255
            &&& glyphs.len() == psf1_glyph_count(meta.flags as u8)
        },
    ensures
        psf_decode(psf_encode(meta, glyphs)->Ok_0) == Ok::<_, PsfError>((meta, glyphs)),
{
    if meta.version == 1 {
        assert(meta.width == 8);
        lemma_no_wrong_all_sized(glyphs, meta.height as int);
        psf1_write_then_read(meta, glyphs);
    } else {
        let size = psf2_glyph_size(meta);
        assert(0 <= size) by (nonlinear_arith)
            requires
                size == meta.height * row_bytes(meta.width as int),
                0 <= meta.height,
                0 <= meta.width,
        ;
        assert(meta.version == 2 && psf2_dims_fit(meta));
        lemma_no_wrong_all_sized(glyphs, size);
        lemma_slices_of_flatten(glyphs, size);
        assert(psf2_header(meta).len() == 32);
        assert(psf_encode(meta, glyphs)->Ok_0 == psf2_header(meta) + glyphs.flatten());
        psf2_write_then_read(meta, glyphs);
    }
}

pub(crate) proof fn lemma_u32_le_of_le_u32(data: Seq<u8>, off: int)
    requires
        0 <= off,
        off + 4 <= data.len(),
    ensures
        u32_le(le_u32(data, off)) == data.subrange(off, off + 4),
{
    let b0 = data[off] as int;
    let b1 = data[off + 1] as int;
    let b2 = data[off + 2] as int;
    let b3 = data[off + 3] as int;
    let v = b0 + 256 * b1 + 65536 * b2 + 16777216 * b3;
    assert(0 <= v < 0x1_0000_0000);
    assert(v % 256 == b0 && (v / 256) % 256 == b1 && (v / 65536) % 256 == b2 && v / 16777216
        == b3) by (nonlinear_arith)
        requires
            0 <= b0 < 256,
            0 <= b1 < 256,
            0 <= b2 < 256,
            0 <= b3 < 256,
            v == b0 + 256 * b1 + 65536 * b2 + 16777216 * b3,
    ;
    assert(u32_le(le_u32(data, off)) =~= data.subrange(off, off + 4));
}

/// Reading a PSF1 font and writing it back gives the bytes it was read from.
pub proof fn psf1_read_then_write(data: Seq<u8>)
    requires
        has_psf1_magic(data),
        psf_decode(data) is Ok,
    ensures
        psf_encode(psf_decode(data)->Ok_0.0, psf_decode(data)->Ok_0.1) == Ok::<_, PsfError>(
            data.subrange(0, 4 + psf1_glyph_count(data[2]) * data[3]),
        ),
{
    let (meta, glyphs) = psf_decode(data)->Ok_0;
    let c = data[3] as int;
    let n = psf1_glyph_count(data[2]);
    assert(0 <= n * c) by (nonlinear_arith)
        requires
            0 <= c,
    ;
    lemma_flatten_slices(data, 4, n, c);
    assert forall|i: int| 0 <= i < glyphs.len() implies (#[trigger] glyphs[i]).len() == c by {
        assert((i + 1) * c <= n * c) by (nonlinear_arith)
            requires
                i + 1 <= n,
                0 <= c,
        ;
        assert((i + 1) * c == i * c + c) by (nonlinear_arith);
    }
    lemma_all_sized_no_wrong(glyphs, c);
    assert(seq![0x36u8, 0x04u8, (meta.flags % 256) as u8, (meta.height % 256) as u8]
        + glyphs.flatten() =~= data.subrange(0, 4 + n * c));
}

/// Reading a PSF2 font whose header is in the form this library writes, and
/// writing it back, gives the bytes it was read from (for glyph widths up to
/// u32::MAX - 7, which the writer can handle).
pub proof fn psf2_read_then_write(data: Seq<u8>)
    requires
        has_psf2_magic(data),
        psf_decode(data) is Ok,
        psf_decode(data)->Ok_0.0.width + 7 <= u32::MAX,
        le_u32(data, 4) == 0,
        le_u32(data, 8) == 32,
        le_u32(data, 20) == psf2_glyph_size(psf_decode(data)->Ok_0.0),
    ensures
        psf_encode(psf_decode(data)->Ok_0.0, psf_decode(data)->Ok_0.1) == Ok::<_, PsfError>(
            data.subrange(0, 32 + le_u32(data, 16) * le_u32(data, 20)),
        ),
{
    let (meta, glyphs) = psf_decode(data)->Ok_0;
    let size = le_u32(data, 20) as int;
    let n = le_u32(data, 16) as nat;
    assert(0 <= n * size) by (nonlinear_arith)
        requires
            0 <= size,
    ;
    lemma_flatten_slices(data, 32, n, size);
    assert forall|i: int| 0 <= i < glyphs.len() implies (#[trigger] glyphs[i]).len() == size by {
        assert((i + 1) * size <= n * size) by (nonlinear_arith)
            requires
                i + 1 <= n,
                0 <= size,
        ;
        assert((i + 1) * size == i * size + size) by (nonlinear_arith);
    }
    lemma_all_sized_no_wrong(glyphs, size);
    lemma_u32_le_of_le_u32(data, 4);
    lemma_u32_le_of_le_u32(data, 8);
    lemma_u32_le_of_le_u32(data, 12);
    lemma_u32_le_of_le_u32(data, 16);
    lemma_u32_le_of_le_u32(data, 20);
    lemma_u32_le_of_le_u32(data, 24);
    lemma_u32_le_of_le_u32(data, 28);
    assert(psf2_header(meta) =~= data.subrange(0, 32));
    assert(psf2_header(meta) + glyphs.flatten() =~= data.subrange(0, 32 + n * size));
}

/// Bytes per glyph recorded in a font file's header.
pub open spec fn header_glyph_size(data: Seq<u8>) -> int {
    if has_psf2_magic(data) {
        le_u32(data, 20) as int
    } else {
        data[3] as int
    }
}

/// A font read from a file has as many glyphs as its metadata counts, each
/// as many bytes long as the header records.
pub proof fn parsed_font_shape(data: Seq<u8>)
    requires
        psf_decode(data) is Ok,
    ensures
        psf_decode(data)->Ok_0.0.num_glyphs == psf_decode(data)->Ok_0.1.len(),
        forall|i: int|
            0 <= i < psf_decode(data)->Ok_0.1.len() ==> (#[trigger] psf_decode(data)->Ok_0.1[i]).len()
                == header_glyph_size(data),
{
    let glyphs = psf_decode(data)->Ok_0.1;
    let n = glyphs.len();
    let c = header_glyph_size(data);
    assert(n * c <= data.len());
    assert forall|i: int| 0 <= i < glyphs.len() implies (#[trigger] glyphs[i]).len() == c by {
        assert((i + 1) * c <= n * c) by (nonlinear_arith)
            requires
                i + 1 <= n,
                0 <= c,
        ;
        assert((i + 1) * c == i * c + c) by (nonlinear_arith);
        assert(0 <= i * c) by (nonlinear_arith)
            requires
                0 <= i,
                0 <= c,
        ;
    }
}

} // verus!
