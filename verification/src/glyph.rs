//! Unpacking glyph bitmaps into pixels and packing pixels back into bitmaps.
//!
//! A glyph of `width` x `height` pixels is stored row by row, each row in
//! `(width + 7) / 8` bytes, the leftmost pixel in the most significant bit.

use vstd::prelude::*;

use crate::psf::row_bytes;

verus! {

/// A pixel with the given red, green and blue components.
pub open spec fn px(r: u8, g: u8, b: u8) -> [u8; 3] {
    [r, g, b]
}

/// The pixel drawn for a set bit.
pub open spec fn white() -> [u8; 3] {
    px(255, 255, 255)
}

/// The pixel drawn for a clear bit.
pub open spec fn black() -> [u8; 3] {
    px(0, 0, 0)
}

/// The pixel drawn on cell separators.
pub open spec fn red() -> [u8; 3] {
    px(255, 0, 0)
}

/// A pixel counts as a set bit when its components add up to more than 382.
pub open spec fn is_on(p: [u8; 3]) -> bool {
    p[0] + p[1] + p[2] > 382
}

/// The value of bit `j` (0 = most significant) within a byte.
pub open spec fn bit_weight(j: int) -> int {
    if j == 0 {
        128
    } else if j == 1 {
        64
    } else if j == 2 {
        32
    } else if j == 3 {
        16
    } else if j == 4 {
        8
    } else if j == 5 {
        4
    } else if j == 6 {
        2
    } else {
        1
    }
}

/// Whether bit `j` (0 = most significant) of byte `b` is set.
pub open spec fn byte_bit(b: u8, j: int) -> bool {
    (b as int / bit_weight(j)) % 2 == 1
}

/// Whether the pixel at (`row`, `col`) of a glyph `width` pixels wide is set.
pub open spec fn glyph_bit(glyph: Seq<u8>, width: u32, row: int, col: int) -> bool {
    byte_bit(glyph[row * row_bytes(width as int) + col / 8], col % 8)
}

/// The pixel drawn for a bit.
pub open spec fn bit_pixel(on: bool) -> [u8; 3] {
    if on {
        white()
    } else {
        black()
    }
}

/// The pixels of a glyph, row by row: white for set bits, black for clear ones.
pub open spec fn glyph_pixels(glyph: Seq<u8>, width: u32, height: u32) -> Seq<[u8; 3]> {
    Seq::new(
        (width * height) as nat,
        |k: int| bit_pixel(glyph_bit(glyph, width, k / width as int, k % width as int)),
    )
}

/// Whether pixel column `col` of row `row` lies inside the glyph and is lit.
pub open spec fn lit(pixels: Seq<[u8; 3]>, width: u32, row: int, col: int) -> bool {
    col < width && is_on(pixels[row * width + col])
}

/// The first `n` bits (most significant first) of byte `bc` of row `row`.
pub open spec fn partial_byte(pixels: Seq<[u8; 3]>, width: u32, row: int, bc: int, n: int) -> int
    decreases n,
{
    if n <= 0 {
        0
    } else {
        partial_byte(pixels, width, row, bc, n - 1) + if lit(pixels, width, row, bc * 8 + n - 1) {
            bit_weight(n - 1)
        } else {
            0
        }
    }
}

/// Byte `bc` of row `row` of the packed glyph.
pub open spec fn packed_byte(pixels: Seq<[u8; 3]>, width: u32, row: int, bc: int) -> u8 {
    partial_byte(pixels, width, row, bc, 8) as u8
}

/// The glyph bitmap packed from `width` x `height` pixels.
pub open spec fn packed_glyph(pixels: Seq<[u8; 3]>, width: u32, height: u32) -> Seq<u8> {
    let bpr = row_bytes(width as int);
    Seq::new(
        (height * bpr) as nat,
        |k: int| packed_byte(pixels, width, k / bpr, k % bpr),
    )
}

pub proof fn lemma_index_in_grid(row: int, col: int, cols: int, rows: int)
    requires
        0 <= row < rows,
        0 <= col < cols,
    ensures
        0 <= row * cols + col < rows * cols,
        (row * cols + col) / cols == row,
        (row * cols + col) % cols == col,
{
    assert(0 <= row * cols + col < rows * cols) by (nonlinear_arith)
        requires
            0 <= row < rows,
            0 <= col < cols,
    ;
    vstd::arithmetic::div_mod::lemma_fundamental_div_mod_converse(row * cols + col, cols, row, col);
}

proof fn lemma_bit_extract(b: u8, j: usize)
    requires
        j < 8,
    ensures
        (((b >> (7 - j)) & 1) != 0) == byte_bit(b, j as int),
{
    if j == 0 {
        assert((((b >> 7usize) & 1) != 0) == ((b / 128) % 2 == 1)) by (bit_vector);
    } else if j == 1 {
        assert((((b >> 6usize) & 1) != 0) == ((b / 64) % 2 == 1)) by (bit_vector);
    } else if j == 2 {
        assert((((b >> 5usize) & 1) != 0) == ((b / 32) % 2 == 1)) by (bit_vector);
    } else if j == 3 {
        assert((((b >> 4usize) & 1) != 0) == ((b / 16) % 2 == 1)) by (bit_vector);
    } else if j == 4 {
        assert((((b >> 3usize) & 1) != 0) == ((b / 8) % 2 == 1)) by (bit_vector);
    } else if j == 5 {
        assert((((b >> 2usize) & 1) != 0) == ((b / 4) % 2 == 1)) by (bit_vector);
    } else if j == 6 {
        assert((((b >> 1usize) & 1) != 0) == ((b / 2) % 2 == 1)) by (bit_vector);
    } else {
        assert((((b >> 0usize) & 1) != 0) == (b % 2 == 1)) by (bit_vector);
    }
}

/// Unpacks a glyph bitmap into `width` x `height` pixels, row by row.
pub fn glyph_to_pixels(glyph: &[u8], width: u32, height: u32) -> (pixels: Vec<[u8; 3]>)
    requires
        width + 7 <= u32::MAX,
        width * height <= u32::MAX,
        glyph@.len() >= height * row_bytes(width as int),
    ensures
        pixels@ == glyph_pixels(glyph@, width, height),
{
    let bytes_per_row = ((width + 7) / 8) as usize;
    let mut pixels: Vec<[u8; 3]> = Vec::with_capacity((width * height) as usize);
    let h = height as usize;
    let w = width as usize;
    let ghost spec = glyph_pixels(glyph@, width, height);
    let glen = glyph.len();
    assert(w * h == h * w) by (nonlinear_arith);
    let mut row: usize = 0;
    while row < h
        invariant
            row <= h,
            h == height,
            w == width,
            bytes_per_row == row_bytes(width as int),
            glyph@.len() >= height * row_bytes(width as int),
            width * height <= u32::MAX,
            spec == glyph_pixels(glyph@, width, height),
            glen == glyph@.len(),
            spec.len() == h * w,
            pixels@.len() == row * w,
            forall|k: int| 0 <= k < pixels@.len() ==> pixels@[k] == #[trigger] spec[k],
        decreases h - row,
    {
        let mut col: usize = 0;
        while col < w
            invariant
                row < h,
                col <= w,
                h == height,
                w == width,
                bytes_per_row == row_bytes(width as int),
                glyph@.len() >= height * row_bytes(width as int),
                width * height <= u32::MAX,
                spec == glyph_pixels(glyph@, width, height),
                glen == glyph@.len(),
                spec.len() == h * w,
                pixels@.len() == row * w + col,
                forall|k: int| 0 <= k < pixels@.len() ==> pixels@[k] == #[trigger] spec[k],
            decreases w - col,
        {
            proof {
                lemma_index_in_grid(row as int, col as int, w as int, h as int);
                assert(col / 8 < bytes_per_row);
                lemma_index_in_grid(row as int, (col / 8) as int, bytes_per_row as int, h as int);
            }
            let byte = glyph[row * bytes_per_row + col / 8];
            let bit = (byte >> (7 - (col % 8))) & 1;
            proof {
                lemma_bit_extract(byte, col % 8);
            }
            let p: [u8; 3] = if bit != 0 {
                [255u8, 255, 255]
            } else {
                [0u8, 0, 0]
            };
            let ghost k = row * w + col;
            proof {
                assert(k / (width as int) == row && k % (width as int) == col);
                assert(glyph_bit(glyph@, width, row as int, col as int) == (bit != 0));
                assert(spec[k] == bit_pixel(glyph_bit(glyph@, width, row as int, col as int)));
                assert(p == spec[k]);
            }
            pixels.push(p);
            col = col + 1;
        }
        assert((row + 1) * w == row * w + w) by (nonlinear_arith);
        row = row + 1;
    }
    assert(pixels@ =~= spec);
    pixels
}

proof fn lemma_partial_byte_range(pixels: Seq<[u8; 3]>, width: u32, row: int, bc: int, n: int)
    requires
        0 <= n <= 8,
    ensures
        0 <= partial_byte(pixels, width, row, bc, n),
        n < 8 ==> partial_byte(pixels, width, row, bc, n) % (2 * bit_weight(n)) == 0,
        n < 8 ==> partial_byte(pixels, width, row, bc, n) + 2 * bit_weight(n) <= 256,
        n == 8 ==> partial_byte(pixels, width, row, bc, n) <= 255,
    decreases n,
{
    if n > 0 {
        lemma_partial_byte_range(pixels, width, row, bc, n - 1);
        let prev = partial_byte(pixels, width, row, bc, n - 1);
        let bit: int = if lit(pixels, width, row, bc * 8 + n - 1) {
            1
        } else {
            0
        };
        assert(partial_byte(pixels, width, row, bc, n) == prev + bit * bit_weight(n - 1));
        if n < 8 {
            let m = 2 * bit_weight(n);
            assert(bit_weight(n - 1) == m);
            vstd::arithmetic::div_mod::lemma_fundamental_div_mod(prev, 2 * m);
            let q = prev / (2 * m);
            assert(prev == 2 * m * q);
            assert(partial_byte(pixels, width, row, bc, n) == (2 * q + bit) * m) by (nonlinear_arith)
                requires
                    partial_byte(pixels, width, row, bc, n) == prev + bit * m,
                    prev == 2 * m * q,
            ;
            vstd::arithmetic::div_mod::lemma_mod_multiples_basic(2 * q + bit, m);
        }
    }
}

proof fn lemma_set_bit(v: u8, j: usize)
    requires
        j < 8,
        (v as int) % (2 * bit_weight(j as int)) == 0,
        v + 2 * bit_weight(j as int) <= 256,
    ensures
        (v | (1u8 << (7 - j))) == v + bit_weight(j as int),
{
    assert(bit_weight(j as int) == 128 || j > 0);
    if j == 0 {
        assert(v == 0);
        assert((0u8 | (1u8 << 7usize)) == 128) by (bit_vector);
    } else if j == 1 {
        assert((v % 128 == 0) ==> (v | (1u8 << 6usize)) == v + 64) by (bit_vector);
    } else if j == 2 {
        assert((v % 64 == 0) ==> (v | (1u8 << 5usize)) == v + 32) by (bit_vector);
    } else if j == 3 {
        assert((v % 32 == 0) ==> (v | (1u8 << 4usize)) == v + 16) by (bit_vector);
    } else if j == 4 {
        assert((v % 16 == 0) ==> (v | (1u8 << 3usize)) == v + 8) by (bit_vector);
    } else if j == 5 {
        assert((v % 8 == 0) ==> (v | (1u8 << 2usize)) == v + 4) by (bit_vector);
    } else if j == 6 {
        assert((v % 4 == 0) ==> (v | (1u8 << 1usize)) == v + 2) by (bit_vector);
    } else {
        assert((v % 2 == 0) ==> (v | (1u8 << 0usize)) == v + 1) by (bit_vector);
    }
}

/// Bits of byte `bc` of a row that have been packed once the first `col` pixels are.
pub open spec fn done_bits(col: int, bc: int) -> int {
    if col <= 8 * bc {
        0
    } else if col >= 8 * bc + 8 {
        8
    } else {
        col - 8 * bc
    }
}

/// Byte `bc` of row `r` once the pixels before (`row`, `col`) have been packed.
pub open spec fn packing_state(
    pixels: Seq<[u8; 3]>,
    width: u32,
    row: int,
    col: int,
    r: int,
    bc: int,
) -> int {
    if r < row {
        partial_byte(pixels, width, r, bc, 8)
    } else if r > row {
        0
    } else {
        partial_byte(pixels, width, r, bc, done_bits(col, bc))
    }
}

proof fn lemma_partial_unlit_tail(pixels: Seq<[u8; 3]>, width: u32, row: int, bc: int, n: int)
    requires
        0 <= n <= 8,
        bc * 8 + n >= width,
    ensures
        partial_byte(pixels, width, row, bc, n) == partial_byte(pixels, width, row, bc, 8),
    decreases 8 - n,
{
    if n < 8 {
        lemma_partial_unlit_tail(pixels, width, row, bc, n + 1);
    }
}

/// Packs `width` x `height` pixels, row by row, into a glyph bitmap: a pixel
/// whose components add up to more than 382 sets its bit.
pub fn pixels_to_glyph(pixels: &[[u8; 3]], width: u32, height: u32) -> (glyph: Vec<u8>)
    requires
        width + 7 <= u32::MAX,
        height * row_bytes(width as int) <= usize::MAX,
        pixels@.len() >= width * height,
    ensures
        glyph@ == packed_glyph(pixels@, width, height),
{
    let bytes_per_row = ((width + 7) / 8) as usize;
    let h = height as usize;
    let w = width as usize;
    let total = h * bytes_per_row;
    let mut glyph: Vec<u8> = Vec::with_capacity(total);
    let mut z: usize = 0;
    while z < total
        invariant
            z <= total,
            glyph@.len() == z,
            forall|k: int| 0 <= k < z ==> glyph@[k] == 0,
        decreases total - z,
    {
        glyph.push(0);
        z = z + 1;
    }
    let ghost bpr = bytes_per_row as int;
    let plen = pixels.len();
    assert(w * h == h * w) by (nonlinear_arith);
    assert forall|k: int| 0 <= k < total implies #[trigger] glyph@[k] == packing_state(
        pixels@,
        width,
        0,
        0,
        k / bpr,
        k % bpr,
    ) by {
        assert(bpr > 0) by (nonlinear_arith)
            requires
                0 <= k < h * bpr,
                0 <= h,
        ;
        vstd::arithmetic::div_mod::lemma_fundamental_div_mod(k, bpr);
        assert(done_bits(0, k % bpr) == 0);
    }
    let mut row: usize = 0;
    while row < h
        invariant
            row <= h,
            h == height,
            w == width,
            bpr == bytes_per_row,
            bytes_per_row == row_bytes(width as int),
            total == h * bytes_per_row,
            glyph@.len() == total,
            plen == pixels@.len(),
            plen >= h * w,
            forall|k: int|
                #![trigger glyph@[k]]
                0 <= k < total ==> glyph@[k] == packing_state(
                    pixels@,
                    width,
                    row as int,
                    0,
                    k / bpr,
                    k % bpr,
                ),
        decreases h - row,
    {
        let mut col: usize = 0;
        while col < w
            invariant
                row < h,
                col <= w,
                h == height,
                w == width,
                bpr == bytes_per_row,
                bytes_per_row == row_bytes(width as int),
                total == h * bytes_per_row,
                glyph@.len() == total,
                plen == pixels@.len(),
                plen >= h * w,
                forall|k: int|
                    #![trigger glyph@[k]]
                    0 <= k < total ==> glyph@[k] == packing_state(
                        pixels@,
                        width,
                        row as int,
                        col as int,
                        k / bpr,
                        k % bpr,
                    ),
            decreases w - col,
        {
            proof {
                lemma_index_in_grid(row as int, col as int, w as int, h as int);
                assert(col / 8 < bytes_per_row);
                assert(bpr > 0);
                lemma_index_in_grid(row as int, (col / 8) as int, bytes_per_row as int, h as int);
            }
            let p = pixels[row * w + col];
            let on = (p[0] as u32 + p[1] as u32 + p[2] as u32) > 382;
            let idx = row * bytes_per_row + col / 8;
            let ghost j = (col % 8) as int;
            let ghost bc = (col / 8) as int;
            proof {
                assert(done_bits(col as int, bc) == j);
                assert(done_bits(col + 1, bc) == j + 1);
                lemma_partial_byte_range(pixels@, width, row as int, bc, j);
                assert(lit(pixels@, width, row as int, bc * 8 + j) == on);
            }
            if on {
                let b = glyph[idx];
                proof {
                    lemma_set_bit(b, col % 8);
                }
                glyph.set(idx, b | (1u8 << (7 - (col % 8))));
            }
            proof {
                assert forall|k: int| 0 <= k < total implies #[trigger] glyph@[k]
                    == packing_state(pixels@, width, row as int, col + 1, k / bpr, k % bpr) by {
                    let r = k / bpr;
                    let c = k % bpr;
                    vstd::arithmetic::div_mod::lemma_fundamental_div_mod(k, bpr);
                    assert(bpr * r == r * bpr) by (nonlinear_arith);
                    if r == row && c == bc {
                        assert(k == idx);
                    } else {
                        assert(k != idx);
                        if r == row {
                            if c < bc {
                                assert(done_bits(col as int, c) == 8);
                                assert(done_bits(col + 1, c) == 8);
                            } else {
                                assert(done_bits(col as int, c) == 0);
                                assert(done_bits(col + 1, c) == 0);
                            }
                        }
                    }
                }
            }
            col = col + 1;
        }
        proof {
            assert forall|k: int| 0 <= k < total implies #[trigger] glyph@[k] == packing_state(
                pixels@,
                width,
                row + 1,
                0,
                k / bpr,
                k % bpr,
            ) by {
                let r = k / bpr;
                let c = k % bpr;
                if r == row && done_bits(w as int, c) < 8 {
                    lemma_partial_unlit_tail(pixels@, width, r, c, done_bits(w as int, c));
                }
            }
        }
        row = row + 1;
    }
    proof {
        assert forall|k: int| 0 <= k < total implies #[trigger] glyph@[k] == packed_glyph(
            pixels@,
            width,
            height,
        )[k] by {
            assert(bpr > 0) by (nonlinear_arith)
                requires
                    0 <= k < h * bpr,
                    0 <= h,
            ;
            vstd::arithmetic::div_mod::lemma_fundamental_div_mod(k, bpr);
            let r = k / bpr;
            assert(r < h) by (nonlinear_arith)
                requires
                    k == bpr * r + k % bpr,
                    0 <= k % bpr,
                    k < h * bpr,
                    0 < bpr,
            ;
            lemma_partial_byte_range(pixels@, width, r, k % bpr, 8);
        }
        assert(glyph@ =~= packed_glyph(pixels@, width, height));
    }
    glyph
}

/// The value a bit contributes to its byte.
pub open spec fn bit_value(on: bool, j: int) -> int {
    if on {
        bit_weight(j)
    } else {
        0
    }
}

/// A byte is the sum of the values of its bits.
proof fn lemma_byte_decompose(b: u8)
    ensures
        b as int == bit_value(byte_bit(b, 0), 0) + bit_value(byte_bit(b, 1), 1) + bit_value(
            byte_bit(b, 2),
            2,
        ) + bit_value(byte_bit(b, 3), 3) + bit_value(byte_bit(b, 4), 4) + bit_value(
            byte_bit(b, 5),
            5,
        ) + bit_value(byte_bit(b, 6), 6) + bit_value(byte_bit(b, 7), 7),
{
    assert(b == (if (b / 128) % 2 == 1 { 128u8 } else { 0u8 }) + (if (b / 64) % 2 == 1 {
        64u8
    } else {
        0u8
    }) + (if (b / 32) % 2 == 1 { 32u8 } else { 0u8 }) + (if (b / 16) % 2 == 1 {
        16u8
    } else {
        0u8
    }) + (if (b / 8) % 2 == 1 { 8u8 } else { 0u8 }) + (if (b / 4) % 2 == 1 {
        4u8
    } else {
        0u8
    }) + (if (b / 2) % 2 == 1 { 2u8 } else { 0u8 }) + (if b % 2 == 1 { 1u8 } else { 0u8 }))
        by (bit_vector);
}

/// The bits of a sum of bit values are those bits.
proof fn lemma_bits_of_sum(b0: bool, b1: bool, b2: bool, b3: bool, b4: bool, b5: bool, b6: bool, b7: bool)
    ensures
        ({
            let v = bit_value(b0, 0) + bit_value(b1, 1) + bit_value(b2, 2) + bit_value(b3, 3)
                + bit_value(b4, 4) + bit_value(b5, 5) + bit_value(b6, 6) + bit_value(b7, 7);
            &&& 0 <= v <= 255
            &&& byte_bit(v as u8, 0) == b0
            &&& byte_bit(v as u8, 1) == b1
            &&& byte_bit(v as u8, 2) == b2
            &&& byte_bit(v as u8, 3) == b3
            &&& byte_bit(v as u8, 4) == b4
            &&& byte_bit(v as u8, 5) == b5
            &&& byte_bit(v as u8, 6) == b6
            &&& byte_bit(v as u8, 7) == b7
        }),
{
    let v: u8 = ((if b0 { 128u8 } else { 0u8 }) + (if b1 { 64u8 } else { 0u8 }) + (if b2 {
        32u8
    } else {
        0u8
    }) + (if b3 { 16u8 } else { 0u8 }) + (if b4 { 8u8 } else { 0u8 }) + (if b5 {
        4u8
    } else {
        0u8
    }) + (if b6 { 2u8 } else { 0u8 }) + (if b7 { 1u8 } else { 0u8 })) as u8;
    assert(((v / 128) % 2 == 1) == b0 && ((v / 64) % 2 == 1) == b1 && ((v / 32) % 2 == 1) == b2
        && ((v / 16) % 2 == 1) == b3 && ((v / 8) % 2 == 1) == b4 && ((v / 4) % 2 == 1) == b5 && ((
    v / 2) % 2 == 1) == b6 && (v % 2 == 1) == b7) by (bit_vector)
        requires
            v == ((if b0 { 128u8 } else { 0u8 }) + (if b1 { 64u8 } else { 0u8 }) + (if b2 {
                32u8
            } else {
                0u8
            }) + (if b3 { 16u8 } else { 0u8 }) + (if b4 { 8u8 } else { 0u8 }) + (if b5 {
                4u8
            } else {
                0u8
            }) + (if b6 { 2u8 } else { 0u8 }) + (if b7 { 1u8 } else { 0u8 })) as u8,
    ;
}

pub proof fn lemma_partial_as_sum(pixels: Seq<[u8; 3]>, width: u32, row: int, bc: int)
    ensures
        partial_byte(pixels, width, row, bc, 8) == bit_value(lit(pixels, width, row, bc * 8), 0)
            + bit_value(lit(pixels, width, row, bc * 8 + 1), 1) + bit_value(
            lit(pixels, width, row, bc * 8 + 2),
            2,
        ) + bit_value(lit(pixels, width, row, bc * 8 + 3), 3) + bit_value(
            lit(pixels, width, row, bc * 8 + 4),
            4,
        ) + bit_value(lit(pixels, width, row, bc * 8 + 5), 5) + bit_value(
            lit(pixels, width, row, bc * 8 + 6),
            6,
        ) + bit_value(lit(pixels, width, row, bc * 8 + 7), 7),
{
    reveal_with_fuel(partial_byte, 9);
}

/// Bit `j` of byte `bc` of row `row` of a packed glyph is the lit state of its pixel.
proof fn lemma_packed_bit(pixels: Seq<[u8; 3]>, width: u32, row: int, bc: int, j: int)
    requires
        0 <= j < 8,
    ensures
        byte_bit(packed_byte(pixels, width, row, bc), j) == lit(pixels, width, row, bc * 8 + j),
{
    lemma_partial_as_sum(pixels, width, row, bc);
    lemma_bits_of_sum(
        lit(pixels, width, row, bc * 8),
        lit(pixels, width, row, bc * 8 + 1),
        lit(pixels, width, row, bc * 8 + 2),
        lit(pixels, width, row, bc * 8 + 3),
        lit(pixels, width, row, bc * 8 + 4),
        lit(pixels, width, row, bc * 8 + 5),
        lit(pixels, width, row, bc * 8 + 6),
        lit(pixels, width, row, bc * 8 + 7),
    );
}

/// Unpacking draws pixel (`k / width`, `k % width`) white, [255, 255, 255],
/// when its bit is set and black, [0, 0, 0], otherwise; column `c` of a row
/// is bit `7 - c % 8` (the most significant bit first) of byte `c / 8` of
/// that row, and each row takes `(width + 7) / 8` bytes.
pub proof fn unpacked_pixels(glyph: Seq<u8>, width: u32, height: u32)
    ensures
        glyph_pixels(glyph, width, height).len() == width * height,
        forall|k: int|
            0 <= k < width * height ==> #[trigger] glyph_pixels(glyph, width, height)[k] == ({
                let row = k / width as int;
                let col = k % width as int;
                let b = glyph[row * ((width + 7) / 8) + col / 8];
                let j = (col % 8) as usize;
                if (b >> (7 - j)) & 1 != 0 {
                    [255u8, 255u8, 255u8]
                } else {
                    [0u8, 0u8, 0u8]
                }
            }),
{
    assert forall|k: int| 0 <= k < width * height implies #[trigger] glyph_pixels(
        glyph,
        width,
        height,
    )[k] == ({
        let row = k / width as int;
        let col = k % width as int;
        let b = glyph[row * ((width + 7) / 8) + col / 8];
        let j = (col % 8) as usize;
        if (b >> (7 - j)) & 1 != 0 {
            [255u8, 255u8, 255u8]
        } else {
            [0u8, 0u8, 0u8]
        }
    }) by {
        assert(width > 0) by (nonlinear_arith)
            requires
                0 <= k < width * height,
                0 <= height,
        ;
        let col = k % width as int;
        let row = k / width as int;
        let b = glyph[row * ((width + 7) / 8) + col / 8];
        lemma_bit_extract(b, (col % 8) as usize);
    }
}

/// Packing sets the bit of a pixel exactly when its red, green and blue
/// components add up to more than 382, and leaves every padding bit past the
/// glyph width clear; each row takes `(width + 7) / 8` bytes.
pub proof fn packed_bits(pixels: Seq<[u8; 3]>, width: u32, height: u32)
    ensures
        packed_glyph(pixels, width, height).len() == height * ((width + 7) / 8),
        forall|row: int, col: int|
            #![trigger glyph_bit(packed_glyph(pixels, width, height), width, row, col)]
            0 <= row < height && 0 <= col < width ==> glyph_bit(
                packed_glyph(pixels, width, height),
                width,
                row,
                col,
            ) == (pixels[row * width + col][0] + pixels[row * width + col][1] + pixels[row * width
                + col][2] > 382),
        forall|row: int, col: int|
            #![trigger glyph_bit(packed_glyph(pixels, width, height), width, row, col)]
            0 <= row < height && width <= col < 8 * ((width + 7) / 8) ==> !glyph_bit(
                packed_glyph(pixels, width, height),
                width,
                row,
                col,
            ),
{
    let bpr = row_bytes(width as int);
    let packed = packed_glyph(pixels, width, height);
    assert forall|row: int, col: int| 0 <= row < height && 0 <= col < bpr * 8 implies glyph_bit(
        packed,
        width,
        row,
        col,
    ) == (col < width && (pixels[row * width + col][0] + pixels[row * width + col][1] + pixels[row
        * width + col][2] > 382)) by {
        let bc = col / 8;
        let j = col % 8;
        assert(bc < bpr);
        lemma_index_in_grid(row, bc, bpr, height as int);
        let k = row * bpr + bc;
        assert(packed[k] == packed_byte(pixels, width, row, bc));
        lemma_packed_bit(pixels, width, row, bc, j);
        assert(bc * 8 + j == col);
    }
}

/// Pixels that are pure black or pure white.
pub open spec fn monochrome(pixels: Seq<[u8; 3]>) -> bool {
    forall|k: int| 0 <= k < pixels.len() ==> #[trigger] pixels[k] == white() || pixels[k] == black()
}

/// Unpacking a glyph and packing its pixels again keeps every pixel bit of
/// the glyph and clears the padding bits beyond the glyph width.
pub proof fn glyph_pixels_keep_bits(glyph: Seq<u8>, width: u32, height: u32)
    requires
        glyph.len() == height * row_bytes(width as int),
    ensures
        packed_glyph(glyph_pixels(glyph, width, height), width, height).len() == glyph.len(),
        forall|row: int, col: int|
            0 <= row < height && 0 <= col < row_bytes(width as int) * 8 ==> glyph_bit(
                packed_glyph(glyph_pixels(glyph, width, height), width, height),
                width,
                row,
                col,
            ) == (col < width && glyph_bit(glyph, width, row, col)),
{
    let bpr = row_bytes(width as int);
    let pixels = glyph_pixels(glyph, width, height);
    let packed = packed_glyph(pixels, width, height);
    assert forall|row: int, col: int| 0 <= row < height && 0 <= col < bpr * 8 implies glyph_bit(
        packed,
        width,
        row,
        col,
    ) == (col < width && glyph_bit(glyph, width, row, col)) by {
        let bc = col / 8;
        let j = col % 8;
        assert(bc < bpr);
        lemma_index_in_grid(row, bc, bpr, height as int);
        let k = row * bpr + bc;
        assert(packed[k] == packed_byte(pixels, width, row, bc));
        lemma_packed_bit(pixels, width, row, bc, j);
        assert(bc * 8 + j == col);
        if col < width {
            lemma_index_in_grid(row, col, width as int, height as int);
            assert(height * width == width * height) by (nonlinear_arith);
            let q = row * width + col;
            assert(pixels[q] == bit_pixel(glyph_bit(glyph, width, row, col)));
        }
    }
}

/// A glyph whose padding bits, those past the glyph width in each row's last
/// byte, are all clear.
pub open spec fn padding_clear(glyph: Seq<u8>, width: u32, height: u32) -> bool {
    forall|row: int, col: int|
        0 <= row < height && width <= col < row_bytes(width as int) * 8 ==> !#[trigger] glyph_bit(
            glyph,
            width,
            row,
            col,
        )
}

/// Byte `bc` of row `row` survives unpacking and packing again when the
/// glyph's padding bits are clear.
#[verifier::spinoff_prover]
proof fn lemma_round_trip_byte(glyph: Seq<u8>, width: u32, height: u32, row: int, bc: int)
    requires
        glyph.len() == height * row_bytes(width as int),
        padding_clear(glyph, width, height),
        0 <= row < height,
        0 <= bc < row_bytes(width as int),
    ensures
        packed_glyph(glyph_pixels(glyph, width, height), width, height)[row * row_bytes(
            width as int,
        ) + bc] == glyph[row * row_bytes(width as int) + bc],
{
    let bpr = row_bytes(width as int);
    let packed = packed_glyph(glyph_pixels(glyph, width, height), width, height);
    let k = row * bpr + bc;
    glyph_pixels_keep_bits(glyph, width, height);
    lemma_index_in_grid(row, bc, bpr, height as int);
    assert forall|j: int| 0 <= j < 8 implies byte_bit(packed[k], j) == byte_bit(glyph[k], j) by {
        let col = bc * 8 + j;
        assert(col / 8 == bc && col % 8 == j);
        assert(col < bpr * 8);
        assert(glyph_bit(packed, width, row, col) == byte_bit(packed[k], j));
        assert(glyph_bit(glyph, width, row, col) == byte_bit(glyph[k], j));
    }
    lemma_byte_decompose(packed[k]);
    lemma_byte_decompose(glyph[k]);
}

/// Unpacking a glyph whose padding bits are clear and packing its pixels
/// again gives back the glyph. (Every glyph whose width is a multiple of 8
/// has no padding bits.)
pub proof fn glyph_round_trip(glyph: Seq<u8>, width: u32, height: u32)
    requires
        padding_clear(glyph, width, height),
        glyph.len() == height * row_bytes(width as int),
    ensures
        packed_glyph(glyph_pixels(glyph, width, height), width, height) == glyph,
{
    let bpr = row_bytes(width as int);
    let packed = packed_glyph(glyph_pixels(glyph, width, height), width, height);
    assert forall|k: int| 0 <= k < glyph.len() implies #[trigger] packed[k] == glyph[k] by {
        assert(bpr > 0) by (nonlinear_arith)
            requires
                0 <= k < height * bpr,
                0 <= height,
        ;
        vstd::arithmetic::div_mod::lemma_fundamental_div_mod(k, bpr);
        let row = k / bpr;
        let bc = k % bpr;
        assert(bpr * row == row * bpr) by (nonlinear_arith);
        assert(row < height) by (nonlinear_arith)
            requires
                k == bpr * row + bc,
                0 <= bc,
                k < height * bpr,
                0 < bpr,
        ;
        lemma_round_trip_byte(glyph, width, height, row, bc);
    }
    assert(packed =~= glyph);
}

/// Packing black-and-white pixels into a glyph and unpacking it again gives
/// back the pixels.
pub proof fn pixels_round_trip(pixels: Seq<[u8; 3]>, width: u32, height: u32)
    requires
        pixels.len() == width * height,
        monochrome(pixels),
    ensures
        glyph_pixels(packed_glyph(pixels, width, height), width, height) == pixels,
{
    let bpr = row_bytes(width as int);
    let glyph = packed_glyph(pixels, width, height);
    let out = glyph_pixels(glyph, width, height);
    assert forall|k: int| 0 <= k < pixels.len() implies #[trigger] out[k] == pixels[k] by {
        assert(width > 0) by (nonlinear_arith)
            requires
                0 <= k < width * height,
                0 <= height,
        ;
        vstd::arithmetic::div_mod::lemma_fundamental_div_mod(k, width as int);
        let row = k / (width as int);
        let col = k % (width as int);
        assert(width * row == row * width) by (nonlinear_arith);
        assert(row < height) by (nonlinear_arith)
            requires
                k == width * row + col,
                0 <= col,
                k < width * height,
                0 < width,
        ;
        let bc = col / 8;
        let j = col % 8;
        assert(col < bpr * 8);
        lemma_index_in_grid(row, bc, bpr, height as int);
        lemma_packed_bit(pixels, width, row, bc, j);
        assert(bc * 8 + j == col);
        assert(glyph[row * bpr + bc] == packed_byte(pixels, width, row, bc));
        assert(glyph_bit(glyph, width, row, col) == is_on(pixels[k]));
        assert(pixels[k] == white() || pixels[k] == black());
    }
    assert(out =~= pixels);
}

} // verus!
