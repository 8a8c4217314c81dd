//! 24-bit uncompressed BMP images: encoding a top-down image and decoding
//! top-down or bottom-up ones.

use vstd::prelude::*;

use crate::glyph::{lemma_index_in_grid, px};
use crate::psf::{lemma_le_u32_of_bytes, le_u32, push_u32_le, u32_le};

verus! {

/// Why pixels could not be encoded or bytes could not be decoded as a BMP.
#[derive(Debug, Clone, Copy, PartialEq, Eq, Structural)]
pub enum BmpError {
    /// The pixel buffer length is not width * height.
    PixelCountMismatch { got: usize, width: usize, height: usize },
    /// Fewer than 54 bytes.
    TooSmall,
    /// The data does not open with "BM".
    NotBmp,
    /// A width of zero or less.
    InvalidWidth(i32),
    /// Bits per pixel other than 24.
    UnsupportedBpp(u16),
    /// A compression method other than none.
    Compressed,
    /// Less pixel data than width, height and row padding imply.
    PixelDataTruncated,
}

/// Bytes per pixel row: three per pixel, rounded up to a multiple of four.
pub open spec fn stride(width: int) -> int {
    ((width * 3 + 3) / 4) * 4
}

/// The two little-endian bytes of `v`.
pub open spec fn u16_le(v: u16) -> Seq<u8> {
    seq![(v % 256) as u8, (v / 256) as u8]
}

/// The 32-bit two's-complement bit pattern of `-(h as i32)`.
pub open spec fn negated_height_bits(h: int) -> u32 {
    let low = h % 0x1_0000_0000;
    if low == 0 {
        0
    } else {
        (0x1_0000_0000 - low) as u32
    }
}

/// The 54-byte file and information header of a top-down 24-bit image.
pub open spec fn bmp_header(width: int, height: int) -> Seq<u8> {
    let file_size = 54 + stride(width) * height;
    seq![0x42u8, 0x4du8] + u32_le((file_size % 0x1_0000_0000) as u32) + u32_le(0) + u32_le(54)
        + u32_le(40) + u32_le((width % 0x1_0000_0000) as u32) + u32_le(negated_height_bits(height))
        + u16_le(1) + u16_le(24) + u32_le(0) + u32_le(0) + u32_le(2835) + u32_le(2835) + u32_le(0)
        + u32_le(0)
}

/// Byte `k` of the pixel data: rows of blue, green, red triples, zero-padded.
pub open spec fn pixel_data_byte(pixels: Seq<[u8; 3]>, width: int, k: int) -> u8 {
    let s = stride(width);
    let row = k / s;
    let off = k % s;
    if off < 3 * width {
        pixels[row * width + off / 3][2 - off % 3]
    } else {
        0
    }
}

/// The bytes of a top-down 24-bit image.
pub open spec fn bmp_bytes(width: int, height: int, pixels: Seq<[u8; 3]>) -> Seq<u8> {
    bmp_header(width, height) + Seq::new(
        (stride(width) * height) as nat,
        |k: int| pixel_data_byte(pixels, width, k),
    )
}

/// The image bytes for `width` x `height` pixels, or why they cannot be made.
pub open spec fn bmp_encode(width: int, height: int, pixels: Seq<[u8; 3]>) -> Result<Seq<u8>, BmpError> {
    if pixels.len() != width * height {
        Err(
            BmpError::PixelCountMismatch {
                got: pixels.len() as usize,
                width: width as usize,
                height: height as usize,
            },
        )
    } else {
        Ok(bmp_bytes(width, height, pixels))
    }
}

/// The encoded bytes, or the error.
pub open spec fn encoded_view(r: Result<Vec<u8>, BmpError>) -> Result<Seq<u8>, BmpError> {
    match r {
        Ok(v) => Ok(v@),
        Err(e) => Err(e),
    }
}

/// Sizes whose image the encoder computes without overflow: `width * height`,
/// the row stride and the file size fit in usize, and `height as i32` can be negated.
pub open spec fn encode_fits(width: int, height: int, pixel_count: int) -> bool {
    &&& width * height <= usize::MAX
    &&& pixel_count == width * height ==> {
        &&& width * 3 + 3 <= usize::MAX
        &&& stride(width) * height <= usize::MAX
        &&& 54 + stride(width) * height <= usize::MAX
        &&& height % 0x1_0000_0000 != 0x8000_0000
    }
}

fn push_u16_le(out: &mut Vec<u8>, v: u16)
    ensures
        final(out)@ == old(out)@ + u16_le(v),
{
    out.push((v % 256) as u8);
    out.push((v / 256) as u8);
    assert(final(out)@ =~= old(out)@ + u16_le(v));
}

proof fn lemma_data_byte(pixels: Seq<[u8; 3]>, width: int, row: int, col: int, c: int)
    requires
        0 <= row,
        0 <= col < width,
        0 <= c < 3,
    ensures
        pixel_data_byte(pixels, width, row * stride(width) + 3 * col + c) == pixels[row * width
            + col][2 - c],
{
    let s = stride(width);
    assert(s >= 3 * width);
    vstd::arithmetic::div_mod::lemma_fundamental_div_mod_converse(
        row * s + 3 * col + c,
        s,
        row,
        3 * col + c,
    );
    vstd::arithmetic::div_mod::lemma_fundamental_div_mod_converse(3 * col + c, 3, col, c);
}

proof fn lemma_stride_mask(x: usize)
    ensures
        (x & !3usize) == (x / 4) * 4,
{
    assert((x & !3usize) == (x / 4) * 4) by (bit_vector);
}

/// Encodes `width` x `height` pixels (red, green, blue; row by row, top row
/// first) as a top-down 24-bit BMP image.
pub fn encode_bmp(width: usize, height: usize, pixels: &[[u8; 3]]) -> (res: Result<Vec<u8>, BmpError>)
    requires
        encode_fits(width as int, height as int, pixels@.len() as int),
    ensures
        encoded_view(res) == bmp_encode(width as int, height as int, pixels@),
{
    if pixels.len() != width * height {
        return Err(BmpError::PixelCountMismatch { got: pixels.len(), width, height });
    }
    proof {
        lemma_stride_mask((width * 3 + 3) as usize);
    }
    let row_len = (width * 3 + 3) & !3;
    let pixel_data_size = row_len * height;
    let file_size = 54 + pixel_data_size;

    let mut buf: Vec<u8> = Vec::with_capacity(file_size);
    buf.push(0x42);
    buf.push(0x4d);
    push_u32_le(&mut buf, (file_size as u64 % 0x1_0000_0000) as u32);
    push_u32_le(&mut buf, 0);
    push_u32_le(&mut buf, 54);
    push_u32_le(&mut buf, 40);
    push_u32_le(&mut buf, (width as u64 % 0x1_0000_0000) as u32);
    let low = (height as u64 % 0x1_0000_0000) as u32;
    let neg: u32 = if low == 0 {
        0
    } else {
        (u32::MAX - low) + 1
    };
    push_u32_le(&mut buf, neg);
    push_u16_le(&mut buf, 1);
    push_u16_le(&mut buf, 24);
    push_u32_le(&mut buf, 0);
    push_u32_le(&mut buf, 0);
    push_u32_le(&mut buf, 2835);
    push_u32_le(&mut buf, 2835);
    push_u32_le(&mut buf, 0);
    push_u32_le(&mut buf, 0);
    assert(buf@ =~= bmp_header(width as int, height as int));

    let ghost header = buf@;
    let ghost s = row_len as int;
    let ghost data = Seq::new(
        (row_len * height) as nat,
        |k: int| pixel_data_byte(pixels@, width as int, k),
    );
    assert(width * height == height * width) by (nonlinear_arith);
    let plen = pixels.len();
    let mut row: usize = 0;
    while row < height
        invariant
            row <= height,
            s == row_len,
            row_len == stride(width as int),
            row_len >= 3 * width,
            row_len * height <= usize::MAX,
            pixels@.len() == height * width,
            plen == pixels@.len(),
            data == Seq::new(
                (row_len * height) as nat,
                |k: int| pixel_data_byte(pixels@, width as int, k),
            ),
            buf@ == header + data.subrange(0, row * s),
        decreases height - row,
    {
        proof {
            assert(row * s + s <= height * s) by (nonlinear_arith)
                requires
                    row < height,
                    0 <= s,
            ;
            assert((row + 1) * s == row * s + s) by (nonlinear_arith);
        }
        let mut col: usize = 0;
        while col < width
            invariant
                row < height,
                col <= width,
                s == row_len,
                row_len == stride(width as int),
                row_len >= 3 * width,
                row_len * height <= usize::MAX,
                row * s + s <= height * s,
                pixels@.len() == height * width,
                plen == pixels@.len(),
                data == Seq::new(
                    (row_len * height) as nat,
                    |k: int| pixel_data_byte(pixels@, width as int, k),
                ),
                buf@ == header + data.subrange(0, row * s + 3 * col),
            decreases width - col,
        {
            proof {
                lemma_index_in_grid(row as int, col as int, width as int, height as int);
            }
            let p = pixels[row * width + col];
            let ghost base = row * s + 3 * col;
            proof {
                lemma_data_byte(pixels@, width as int, row as int, col as int, 0);
                lemma_data_byte(pixels@, width as int, row as int, col as int, 1);
                lemma_data_byte(pixels@, width as int, row as int, col as int, 2);
            }
            buf.push(p[2]);
            buf.push(p[1]);
            buf.push(p[0]);
            proof {
                assert(height * s == s * height) by (nonlinear_arith);
                assert(base + 3 <= data.len());
                assert(data[base] == p[2]);
                assert(data[base + 1] == p[1]);
                assert(data[base + 2] == p[0]);
                assert(buf@ =~= header + data.subrange(0, base + 3));
            }
            col = col + 1;
        }
        let mut pad: usize = 3 * width;
        while pad < row_len
            invariant
                row < height,
                3 * width <= pad <= row_len,
                s == row_len,
                row_len == stride(width as int),
                row * s + s <= height * s,
                data == Seq::new(
                    (row_len * height) as nat,
                    |k: int| pixel_data_byte(pixels@, width as int, k),
                ),
                buf@ == header + data.subrange(0, row * s + pad),
            decreases row_len - pad,
        {
            proof {
                vstd::arithmetic::div_mod::lemma_fundamental_div_mod_converse(
                    row * s + pad,
                    s,
                    row as int,
                    pad as int,
                );
            }
            buf.push(0);
            assert(buf@ =~= header + data.subrange(0, row * s + pad + 1));
            pad = pad + 1;
        }
        row = row + 1;
    }
    assert(height * s == s * height) by (nonlinear_arith);
    assert(data.subrange(0, height * s) =~= data);
    Ok(buf)
}

/// The unsigned 16-bit little-endian integer at `offset`.
pub open spec fn le_u16(data: Seq<u8>, offset: int) -> u16 {
    (data[offset] + 256 * data[offset + 1]) as u16
}

/// The signed 32-bit little-endian integer at `offset`.
pub open spec fn le_i32(data: Seq<u8>, offset: int) -> int {
    let v = le_u32(data, offset);
    if v >= 0x8000_0000 {
        v - 0x1_0000_0000
    } else {
        v as int
    }
}

/// Pixel `i` of an image whose pixel data starts at `offset`, counted row by
/// row from the top; rows are stored top first when `top_down`, else bottom first.
pub open spec fn decoded_pixel(
    data: Seq<u8>,
    offset: int,
    width: int,
    height: int,
    top_down: bool,
    i: int,
) -> [u8; 3] {
    let row = i / width;
    let col = i % width;
    let src_row = if top_down {
        row
    } else {
        height - 1 - row
    };
    let start = offset + src_row * stride(width) + col * 3;
    px(data[start + 2], data[start + 1], data[start])
}

/// A header that passes the checks before the pixel data is located.
pub open spec fn header_accepted(data: Seq<u8>) -> bool {
    &&& data.len() >= 54
    &&& data[0] == 0x42 && data[1] == 0x4d
    &&& le_i32(data, 18) > 0
    &&& le_u16(data, 28) == 24
    &&& le_u32(data, 30) == 0
}

/// The image height: the magnitude of the signed height field.
pub open spec fn header_height(data: Seq<u8>) -> int {
    let h = le_i32(data, 22);
    if h < 0 {
        -h
    } else {
        h
    }
}

/// What a 24-bit BMP holds (width, height, pixels row by row from the top), or
/// why it is refused.
pub open spec fn bmp_decode(data: Seq<u8>) -> Result<(usize, usize, Seq<[u8; 3]>), BmpError> {
    if data.len() < 54 {
        Err(BmpError::TooSmall)
    } else if data[0] != 0x42 || data[1] != 0x4d {
        Err(BmpError::NotBmp)
    } else if le_i32(data, 18) <= 0 {
        Err(BmpError::InvalidWidth(le_i32(data, 18) as i32))
    } else if le_u16(data, 28) != 24 {
        Err(BmpError::UnsupportedBpp(le_u16(data, 28)))
    } else if le_u32(data, 30) != 0 {
        Err(BmpError::Compressed)
    } else {
        let offset = le_u32(data, 10) as int;
        let width = le_i32(data, 18);
        let height = header_height(data);
        let top_down = le_i32(data, 22) < 0;
        if data.len() < offset + stride(width) * height {
            Err(BmpError::PixelDataTruncated)
        } else {
            Ok(
                (
                    width as usize,
                    height as usize,
                    Seq::new(
                        (width * height) as nat,
                        |i: int| decoded_pixel(data, offset, width, height, top_down, i),
                    ),
                ),
            )
        }
    }
}

/// Headers whose pixel data the decoder locates without overflowing usize.
pub open spec fn decode_fits(data: Seq<u8>) -> bool {
    header_accepted(data) ==> {
        let width = le_i32(data, 18);
        let height = header_height(data);
        &&& width * 3 + 3 <= usize::MAX
        &&& stride(width) * height <= usize::MAX
        &&& le_u32(data, 10) + stride(width) * height <= usize::MAX
    }
}

/// The decoded image, or the error.
pub open spec fn decoded_view(r: Result<(usize, usize, Vec<[u8; 3]>), BmpError>) -> Result<
    (usize, usize, Seq<[u8; 3]>),
    BmpError,
> {
    match r {
        Ok((w, h, p)) => Ok((w, h, p@)),
        Err(e) => Err(e),
    }
}

pub(crate) fn u32_at(data: &[u8], offset: usize) -> (v: u32)
    requires
        offset + 4 <= data@.len(),
    ensures
        v == le_u32(data@, offset as int),
{
    data[offset] as u32 + 256 * (data[offset + 1] as u32) + 65536 * (data[offset + 2] as u32)
        + 16777216 * (data[offset + 3] as u32)
}

pub(crate) fn i32_at(data: &[u8], offset: usize) -> (v: i32)
    requires
        offset + 4 <= data@.len(),
    ensures
        v == le_i32(data@, offset as int),
{
    let u = u32_at(data, offset);
    if u >= 0x8000_0000 {
        ((u - 0x8000_0000) as i32) - 0x7fff_ffff - 1
    } else {
        u as i32
    }
}

/// Decodes a 24-bit uncompressed BMP image into its width, height and pixels
/// (red, green, blue; row by row, top row first), for top-down and bottom-up
/// row order alike.
pub fn decode_bmp(data: &[u8]) -> (res: Result<(usize, usize, Vec<[u8; 3]>), BmpError>)
    requires
        decode_fits(data@),
    ensures
        decoded_view(res) == bmp_decode(data@),
{
    if data.len() < 54 {
        return Err(BmpError::TooSmall);
    }
    if data[0] != 0x42 || data[1] != 0x4d {
        return Err(BmpError::NotBmp);
    }
    let pixel_offset = u32_at(data, 10) as usize;
    let width = i32_at(data, 18);
    if width <= 0 {
        return Err(BmpError::InvalidWidth(width));
    }
    let height_raw = i32_at(data, 22);
    let bpp = data[28] as u16 + 256 * (data[29] as u16);
    let compression = u32_at(data, 30);
    if bpp != 24 {
        return Err(BmpError::UnsupportedBpp(bpp));
    }
    if compression != 0 {
        return Err(BmpError::Compressed);
    }
    let top_down = height_raw < 0;
    let height: usize = if top_down {
        (-(height_raw as i64)) as usize
    } else {
        height_raw as usize
    };
    let width = width as usize;
    proof {
        lemma_stride_mask((width * 3 + 3) as usize);
    }
    let row_len = (width * 3 + 3) & !3;
    if data.len() < pixel_offset + row_len * height {
        return Err(BmpError::PixelDataTruncated);
    }
    let ghost spec = Seq::new(
        (width * height) as nat,
        |i: int| decoded_pixel(data@, pixel_offset as int, width as int, height as int, top_down, i),
    );
    proof {
        assert(width * height <= row_len * height) by (nonlinear_arith)
            requires
                width <= row_len,
        ;
    }
    let mut pixels: Vec<[u8; 3]> = Vec::with_capacity(width * height);
    let dlen = data.len();
    let mut row: usize = 0;
    while row < height
        invariant
            row <= height,
            dlen == data@.len(),
            0 < width,
            row_len == stride(width as int),
            row_len >= 3 * width,
            pixel_offset + row_len * height <= data@.len(),
            spec == Seq::new(
                (width * height) as nat,
                |i: int| decoded_pixel(data@, pixel_offset as int, width as int, height as int, top_down, i),
            ),
            pixels@.len() == row * width,
            forall|k: int| 0 <= k < pixels@.len() ==> #[trigger] pixels@[k] == spec[k],
        decreases height - row,
    {
        let src_row = if top_down {
            row
        } else {
            height - 1 - row
        };
        proof {
            assert(src_row * row_len + row_len <= row_len * height) by (nonlinear_arith)
                requires
                    src_row < height,
                    0 <= row_len,
            ;
        }
        let row_start = pixel_offset + src_row * row_len;
        let mut col: usize = 0;
        while col < width
            invariant
                row < height,
                col <= width,
                dlen == data@.len(),
                src_row < height,
                src_row == if top_down { row } else { (height - 1 - row) as usize },
                row_start == pixel_offset + src_row * row_len,
                row_start + row_len <= data@.len(),
                row_len == stride(width as int),
                row_len >= 3 * width,
                spec == Seq::new(
                    (width * height) as nat,
                    |i: int| decoded_pixel(data@, pixel_offset as int, width as int, height as int, top_down, i),
                ),
                pixels@.len() == row * width + col,
                forall|k: int| 0 <= k < pixels@.len() ==> #[trigger] pixels@[k] == spec[k],
            decreases width - col,
        {
            let b = data[row_start + col * 3];
            let g = data[row_start + col * 3 + 1];
            let r = data[row_start + col * 3 + 2];
            proof {
                lemma_index_in_grid(row as int, col as int, width as int, height as int);
                assert(height * width == width * height) by (nonlinear_arith);
                assert(spec[row * width + col] == px(r, g, b));
            }
            pixels.push([r, g, b]);
            col = col + 1;
        }
        assert((row + 1) * width == row * width + width) by (nonlinear_arith);
        row = row + 1;
    }
    assert(height * width == width * height) by (nonlinear_arith);
    assert(pixels@ =~= spec);
    Ok((width, height, pixels))
}

proof fn lemma_le_u16_of_bytes(prefix: Seq<u8>, v: u16, rest: Seq<u8>)
    ensures
        le_u16(prefix + u16_le(v) + rest, prefix.len() as int) == v,
{
    let d = prefix + u16_le(v) + rest;
    let p = prefix.len() as int;
    assert(d[p] == v % 256);
    assert(d[p + 1] == v / 256);
}

#[verifier::spinoff_prover]
#[verifier::rlimit(80)]
proof fn lemma_header_fields(w: int, h: int, body: Seq<u8>)
    requires
        0 < w <= 0x7fff_ffff,
        0 <= h <= 0x7fff_ffff,
    ensures
        ({
            let bytes = bmp_header(w, h) + body;
            &&& bytes.len() == 54 + body.len()
            &&& bytes[0] == 0x42 && bytes[1] == 0x4d
            &&& le_u32(bytes, 10) == 54
            &&& le_i32(bytes, 18) == w
            &&& le_i32(bytes, 22) == (if h > 0 { -h } else { 0 })
            &&& le_u16(bytes, 28) == 24
            &&& le_u32(bytes, 30) == 0
            &&& forall|k: int| 0 <= k < body.len() ==> #[trigger] bytes[54 + k] == body[k]
        }),
{
    let s = stride(w);
    let file_size = 54 + s * h;
    let bytes = bmp_header(w, h) + body;
    let neg = negated_height_bits(h);
    let a0 = seq![0x42u8, 0x4du8] + u32_le((file_size % 0x1_0000_0000) as u32) + u32_le(0);
    let tail22 = u16_le(1) + u16_le(24) + u32_le(0) + u32_le(0) + u32_le(2835) + u32_le(2835)
        + u32_le(0) + u32_le(0) + body;
    lemma_le_u32_of_bytes(a0, 54, u32_le(40) + u32_le((w % 0x1_0000_0000) as u32) + u32_le(neg)
        + tail22);
    assert(a0 + u32_le(54) + (u32_le(40) + u32_le((w % 0x1_0000_0000) as u32) + u32_le(neg)
        + tail22) =~= bytes);
    let a18 = a0 + u32_le(54) + u32_le(40);
    lemma_le_u32_of_bytes(a18, (w % 0x1_0000_0000) as u32, u32_le(neg) + tail22);
    assert(a18 + u32_le((w % 0x1_0000_0000) as u32) + (u32_le(neg) + tail22) =~= bytes);
    let a22 = a18 + u32_le((w % 0x1_0000_0000) as u32);
    lemma_le_u32_of_bytes(a22, neg, tail22);
    assert(a22 + u32_le(neg) + tail22 =~= bytes);
    let a26 = a22 + u32_le(neg) + u16_le(1);
    let tail30 = u32_le(0) + u32_le(0) + u32_le(2835) + u32_le(2835) + u32_le(0) + u32_le(0) + body;
    lemma_le_u16_of_bytes(a26, 24, tail30);
    assert(a26 + u16_le(24) + tail30 =~= bytes);
    let a30 = a26 + u16_le(24);
    lemma_le_u32_of_bytes(a30, 0, u32_le(0) + u32_le(2835) + u32_le(2835) + u32_le(0) + u32_le(0)
        + body);
    assert(a30 + u32_le(0) + (u32_le(0) + u32_le(2835) + u32_le(2835) + u32_le(0) + u32_le(0)
        + body) =~= bytes);
}

proof fn lemma_decoded_pixels(w: int, h: int, pixels: Seq<[u8; 3]>, bytes: Seq<u8>)
    requires
        0 < w,
        0 <= h,
        pixels.len() == w * h,
        bytes.len() == 54 + stride(w) * h,
        forall|k: int|
            0 <= k < stride(w) * h ==> #[trigger] bytes[54 + k] == pixel_data_byte(pixels, w, k),
    ensures
        Seq::new((w * h) as nat, |i: int| decoded_pixel(bytes, 54, w, h, true, i)) == pixels,
{
    let s = stride(w);
    let decoded = Seq::new((w * h) as nat, |i: int| decoded_pixel(bytes, 54, w, h, true, i));
    assert forall|i: int| 0 <= i < w * h implies #[trigger] decoded[i] == pixels[i] by {
        vstd::arithmetic::div_mod::lemma_fundamental_div_mod(i, w);
        let row = i / w;
        let col = i % w;
        assert(w * row == row * w) by (nonlinear_arith);
        assert(row < h) by (nonlinear_arith)
            requires
                i == w * row + col,
                0 <= col,
                i < w * h,
                0 < w,
        ;
        assert(0 <= row);
        assert(row * s + s <= s * h) by (nonlinear_arith)
            requires
                row < h,
                0 <= s,
        ;
        assert(s >= 3 * w);
        lemma_data_byte(pixels, w, row, col, 0);
        lemma_data_byte(pixels, w, row, col, 1);
        lemma_data_byte(pixels, w, row, col, 2);
        let base = row * s + 3 * col;
        assert(bytes[54 + base] == pixel_data_byte(pixels, w, base));
        assert(bytes[54 + (base + 1)] == pixel_data_byte(pixels, w, base + 1));
        assert(bytes[54 + (base + 2)] == pixel_data_byte(pixels, w, base + 2));
        assert(decoded[i] =~= pixels[i]);
    }
    assert(decoded =~= pixels);
}

/// Encoding an image and decoding the bytes gives back its width, height and
/// pixels (for widths and heights that fit the signed 32-bit header fields).
pub proof fn bmp_round_trip(width: usize, height: usize, pixels: Seq<[u8; 3]>)
    requires
        0 < width <= 0x7fff_ffff,
        height <= 0x7fff_ffff,
        pixels.len() == width * height,
        encode_fits(width as int, height as int, pixels.len() as int),
    ensures
        bmp_encode(width as int, height as int, pixels) is Ok,
        decode_fits(bmp_encode(width as int, height as int, pixels)->Ok_0),
        bmp_decode(bmp_encode(width as int, height as int, pixels)->Ok_0) == Ok::<_, BmpError>(
            (width, height, pixels),
        ),
{
    let w = width as int;
    let h = height as int;
    let s = stride(w);
    let body = Seq::new((s * h) as nat, |k: int| pixel_data_byte(pixels, w, k));
    let bytes = bmp_bytes(w, h, pixels);
    lemma_header_fields(w, h, body);
    assert(header_height(bytes) == h);
    assert forall|k: int| 0 <= k < s * h implies #[trigger] bytes[54 + k] == pixel_data_byte(
        pixels,
        w,
        k,
    ) by {
        assert(bytes[54 + k] == body[k]);
    }
    if h > 0 {
        lemma_decoded_pixels(w, h, pixels, bytes);
    } else {
        assert(w * h == 0);
        assert(Seq::new((w * h) as nat, |i: int| decoded_pixel(bytes, 54, w, h, false, i)) =~= pixels);
    }
}

} // verus!
