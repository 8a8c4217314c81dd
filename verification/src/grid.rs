//! The editable glyph grid: 16 glyph cells per row, each surrounded by a
//! one-pixel red separator; set bits white, clear bits black.

use vstd::prelude::*;

use crate::glyph::{
    bit_pixel, black, glyph_bit, glyph_pixels, glyph_round_trip, glyph_to_pixels, lemma_index_in_grid,
    lemma_partial_as_sum, lit, packed_glyph, padding_clear, pixels_to_glyph, red,
};
use crate::meta::FontMeta;
use crate::psf::{glyphs_view, row_bytes, PsfFont};

verus! {

/// Rows of cells needed for `n` glyphs.
pub open spec fn grid_rows(n: int) -> int {
    (n + 15) / 16
}

/// Width in pixels of the grid for glyphs `w` pixels wide.
pub open spec fn grid_width(w: int) -> int {
    1 + 16 * (w + 1)
}

/// Height in pixels of the grid for `n` glyphs `h` pixels high.
pub open spec fn grid_height(h: int, n: int) -> int {
    1 + grid_rows(n) * (h + 1)
}

/// Whether pixel (`x`, `y`) lies on a cell separator.
pub open spec fn on_separator(x: int, y: int, w: int, h: int) -> bool {
    x % (w + 1) == 0 || y % (h + 1) == 0
}

/// The index of the glyph whose cell holds pixel (`x`, `y`).
pub open spec fn cell_of(x: int, y: int, w: int, h: int) -> int {
    (y / (h + 1)) * 16 + x / (w + 1)
}

/// Pixel (`x`, `y`) of the grid once the cells of the first `filled` glyphs are drawn.
pub open spec fn layout_pixel(
    glyphs: Seq<Seq<u8>>,
    width: u32,
    height: u32,
    filled: int,
    x: int,
    y: int,
) -> [u8; 3] {
    let w = width as int;
    let h = height as int;
    if on_separator(x, y, w, h) {
        red()
    } else if cell_of(x, y, w, h) < filled {
        bit_pixel(
            glyph_bit(glyphs[cell_of(x, y, w, h)], width, y % (h + 1) - 1, x % (w + 1) - 1),
        )
    } else {
        black()
    }
}

/// The grid pixels, row by row, once the cells of the first `filled` glyphs are drawn.
pub open spec fn layout(
    glyphs: Seq<Seq<u8>>,
    width: u32,
    height: u32,
    filled: int,
    bw: int,
    bh: int,
) -> Seq<[u8; 3]> {
    Seq::new((bw * bh) as nat, |k: int| layout_pixel(glyphs, width, height, filled, k % bw, k / bw))
}

/// Grid dimensions that the drawing code computes without overflowing usize.
pub open spec fn grid_fits(width: u32, height: u32, num_glyphs: u32) -> bool {
    &&& grid_dims_fit(width, height, num_glyphs)
    &&& grid_width(width as int) * grid_height(height as int, num_glyphs as int) <= usize::MAX
}

/// Grid dimensions whose width and height the code computes without
/// overflowing usize.
pub open spec fn grid_dims_fit(width: u32, height: u32, num_glyphs: u32) -> bool {
    &&& num_glyphs + 16 <= usize::MAX
    &&& grid_width(width as int) <= usize::MAX
    &&& height + 1 <= usize::MAX
    &&& grid_height(height as int, num_glyphs as int) <= usize::MAX
}

/// The grid is a one-pixel separator border around 16 cells per row, each
/// `w + 1` pixels wide, and one row of cells for every 16 glyphs with no
/// empty row: `r` rows, each `h + 1` pixels high, where `16 * (r - 1) < n <=
/// 16 * r` for `n` glyphs (and no row for no glyphs).
pub proof fn grid_dimensions(w: u32, h: u32, n: u32)
    ensures
        grid_width(w as int) == 1 + 16 * (w + 1),
        grid_height(h as int, n as int) >= 1,
        (grid_height(h as int, n as int) - 1) % (h + 1) == 0,
        16 * ((grid_height(h as int, n as int) - 1) / (h + 1)) >= n,
        n > 0 ==> 16 * ((grid_height(h as int, n as int) - 1) / (h + 1) - 1) < n,
        n == 0 ==> grid_height(h as int, n as int) == 1,
{
    let r = grid_rows(n as int);
    assert(r >= 0);
    assert(0 <= r * (h + 1)) by (nonlinear_arith)
        requires
            r >= 0,
            h >= 0,
    ;
    vstd::arithmetic::div_mod::lemma_fundamental_div_mod_converse(r * (h + 1), h + 1, r, 0);
    assert(16 * r >= n);
    assert(n > 0 ==> 16 * (r - 1) < n);
    assert(r == 0 ==> r * (h + 1) == 0) by (nonlinear_arith);
}

proof fn lemma_grid_coords(k: int, bw: int, bh: int)
    requires
        0 <= k < bw * bh,
        0 < bw,
    ensures
        0 <= k % bw < bw,
        0 <= k / bw < bh,
        k == (k / bw) * bw + k % bw,
{
    vstd::arithmetic::div_mod::lemma_fundamental_div_mod(k, bw);
    assert(bw * (k / bw) == (k / bw) * bw) by (nonlinear_arith);
    assert(k / bw < bh) by (nonlinear_arith)
        requires
            k == bw * (k / bw) + k % bw,
            0 <= k % bw,
            k < bw * bh,
            0 < bw,
    ;
}

/// Allocates a `bmp_w` x `bmp_h` grid, black with red separators around cells
/// of `w` x `h` pixels.
fn separator_grid(w: usize, h: usize, bmp_w: usize, bmp_h: usize) -> (pixels: Vec<[u8; 3]>)
    requires
        w <= u32::MAX,
        h <= u32::MAX,
        w + 1 <= usize::MAX,
        h + 1 <= usize::MAX,
        bmp_w * bmp_h <= usize::MAX,
    ensures
        pixels@ == layout(Seq::empty(), w as u32, h as u32, 0, bmp_w as int, bmp_h as int),
{
    let total = bmp_w * bmp_h;
    let mut pixels: Vec<[u8; 3]> = Vec::with_capacity(total);
    let mut z: usize = 0;
    while z < total
        invariant
            z <= total,
            pixels@.len() == z,
            forall|k: int| 0 <= k < z ==> pixels@[k] == black(),
        decreases total - z,
    {
        pixels.push([0u8, 0, 0]);
        z = z + 1;
    }
    let red_px: [u8; 3] = [255u8, 0, 0];
    let ghost bw = bmp_w as int;
    let mut y: usize = 0;
    while y < bmp_h
        invariant
            y <= bmp_h,
            total == bmp_w * bmp_h,
            bw == bmp_w,
            pixels@.len() == total,
            red_px == red(),
            w + 1 <= usize::MAX,
            h + 1 <= usize::MAX,
            forall|k: int|
                #![trigger pixels@[k]]
                0 <= k < total ==> pixels@[k] == if k < y * bw && on_separator(
                    k % bw,
                    k / bw,
                    w as int,
                    h as int,
                ) {
                    red()
                } else {
                    black()
                },
        decreases bmp_h - y,
    {
        let mut x: usize = 0;
        while x < bmp_w
            invariant
                y < bmp_h,
                x <= bmp_w,
                total == bmp_w * bmp_h,
                bw == bmp_w,
                pixels@.len() == total,
                red_px == red(),
                w + 1 <= usize::MAX,
                h + 1 <= usize::MAX,
                forall|k: int|
                    #![trigger pixels@[k]]
                    0 <= k < total ==> pixels@[k] == if k < y * bw + x && on_separator(
                        k % bw,
                        k / bw,
                        w as int,
                        h as int,
                    ) {
                        red()
                    } else {
                        black()
                    },
            decreases bmp_w - x,
        {
            proof {
                lemma_index_in_grid(y as int, x as int, bmp_w as int, bmp_h as int);
                assert(bmp_h * bmp_w == bmp_w * bmp_h) by (nonlinear_arith);
            }
            if x % (w + 1) == 0 || y % (h + 1) == 0 {
                pixels.set(y * bmp_w + x, red_px);
            }
            x = x + 1;
        }
        assert((y + 1) * bw == y * bw + bw) by (nonlinear_arith);
        y = y + 1;
    }
    proof {
        assert forall|k: int| 0 <= k < total implies #[trigger] pixels@[k] == layout(
            Seq::empty(),
            w as u32,
            h as u32,
            0,
            bw,
            bmp_h as int,
        )[k] by {
            assert(bw > 0) by (nonlinear_arith)
                requires
                    0 <= k < bw * bmp_h,
                    0 <= bmp_h,
            ;
            lemma_grid_coords(k, bw, bmp_h as int);
            assert(k / bw < bmp_h);
            assert(k < bmp_h * bw) by (nonlinear_arith)
                requires
                    k == (k / bw) * bw + k % bw,
                    k / bw < bmp_h,
                    k % bw < bw,
            ;
        }
        assert(pixels@ =~= layout(Seq::empty(), w as u32, h as u32, 0, bw, bmp_h as int));
    }
    pixels
}

/// Pixel (`x`, `y`) while glyph `i` is drawn, once its pixels before local
/// row `gy`, column `gx` are placed.
pub open spec fn placing_pixel(
    glyphs: Seq<Seq<u8>>,
    width: u32,
    height: u32,
    i: int,
    gy: int,
    gx: int,
    x: int,
    y: int,
) -> [u8; 3] {
    let w = width as int;
    let h = height as int;
    let ly = y % (h + 1) - 1;
    let lx = x % (w + 1) - 1;
    if !on_separator(x, y, w, h) && cell_of(x, y, w, h) == i && (ly < gy || (ly == gy && lx
        < gx)) {
        bit_pixel(glyph_bit(glyphs[i], width, ly, lx))
    } else {
        layout_pixel(glyphs, width, height, i, x, y)
    }
}

/// Fonts whose grid can be drawn: the arithmetic fits, every glyph holds its
/// rows, and every glyph cell lies inside the grid.
pub open spec fn grid_accepts(meta: FontMeta, glyphs: Seq<Seq<u8>>) -> bool {
    let w = meta.width as int;
    let h = meta.height as int;
    &&& grid_fits(meta.width, meta.height, meta.num_glyphs)
    &&& glyphs.len() > 0 ==> meta.width + 7 <= u32::MAX && meta.width * meta.height <= u32::MAX
    &&& forall|i: int| 0 <= i < glyphs.len() ==> (#[trigger] glyphs[i]).len() >= h * row_bytes(w)
    &&& glyphs.len() <= 16 * grid_rows(meta.num_glyphs as int) || w == 0 || h == 0
    &&& glyphs.len() > 0 ==> 1 + ((glyphs.len() - 1) / 16) * (h + 1) <= usize::MAX
}

proof fn lemma_cell_pos(i: int, gy: int, gx: int, w: int, h: int)
    requires
        0 <= i,
        0 <= gy < h,
        0 <= gx < w,
    ensures
        ({
            let x = 1 + (i % 16) * (w + 1) + gx;
            let y = 1 + (i / 16) * (h + 1) + gy;
            &&& !on_separator(x, y, w, h)
            &&& cell_of(x, y, w, h) == i
            &&& y % (h + 1) - 1 == gy
            &&& x % (w + 1) - 1 == gx
        }),
{
    let x = 1 + (i % 16) * (w + 1) + gx;
    let y = 1 + (i / 16) * (h + 1) + gy;
    vstd::arithmetic::div_mod::lemma_fundamental_div_mod_converse(x, w + 1, i % 16, gx + 1);
    vstd::arithmetic::div_mod::lemma_fundamental_div_mod_converse(y, h + 1, i / 16, gy + 1);
}

proof fn lemma_cell_unique(x: int, y: int, w: int, h: int)
    requires
        0 <= w,
        0 <= h,
        0 <= x < grid_width(w),
        0 <= y,
        !on_separator(x, y, w, h),
    ensures
        0 <= x % (w + 1) - 1 < w,
        0 <= y % (h + 1) - 1 < h,
        0 <= x / (w + 1) < 16,
        cell_of(x, y, w, h) % 16 == x / (w + 1),
        cell_of(x, y, w, h) / 16 == y / (h + 1),
        x == 1 + (cell_of(x, y, w, h) % 16) * (w + 1) + (x % (w + 1) - 1),
        y == 1 + (cell_of(x, y, w, h) / 16) * (h + 1) + (y % (h + 1) - 1),
{
    vstd::arithmetic::div_mod::lemma_fundamental_div_mod(x, w + 1);
    vstd::arithmetic::div_mod::lemma_fundamental_div_mod(y, h + 1);
    let q = x / (w + 1);
    let r = x % (w + 1);
    assert((w + 1) * q == q * (w + 1)) by (nonlinear_arith);
    assert((h + 1) * (y / (h + 1)) == (y / (h + 1)) * (h + 1)) by (nonlinear_arith);
    assert(0 <= q) by (nonlinear_arith)
        requires
            x == (w + 1) * q + r,
            0 <= x,
            r < w + 1,
            0 < w + 1,
    ;
    assert(q < 16) by (nonlinear_arith)
        requires
            x == q * (w + 1) + r,
            1 <= r < w + 1,
            x < 1 + 16 * (w + 1),
    ;
    assert(0 <= y / (h + 1)) by (nonlinear_arith)
        requires
            y == (h + 1) * (y / (h + 1)) + y % (h + 1),
            0 <= y,
            y % (h + 1) < h + 1,
            0 < h + 1,
    ;
    vstd::arithmetic::div_mod::lemma_fundamental_div_mod_converse(
        cell_of(x, y, w, h),
        16,
        y / (h + 1),
        q,
    );
}

/// Draws the grid of a font: red separators, then each glyph's pixels in its
/// cell (cell `i` in row `i / 16`, column `i % 16`). Returns the grid width,
/// height and pixels row by row.
pub fn font_to_grid(font: &PsfFont) -> (res: (usize, usize, Vec<[u8; 3]>))
    requires
        grid_accepts(font.meta, font@.1),
    ensures
        res.0 == grid_width(font.meta.width as int),
        res.1 == grid_height(font.meta.height as int, font.meta.num_glyphs as int),
        res.2@ == layout(
            font@.1,
            font.meta.width,
            font.meta.height,
            font@.1.len() as int,
            res.0 as int,
            res.1 as int,
        ),
{
    let w = font.meta.width as usize;
    let h = font.meta.height as usize;
    let n = font.meta.num_glyphs as usize;
    let cols = 16usize;
    let rows = (n + cols - 1) / cols;
    assert(rows == grid_rows(n as int));
    let bmp_w = 1 + cols * (w + 1);
    let bmp_h = 1 + rows * (h + 1);
    let mut pixels = separator_grid(w, h, bmp_w, bmp_h);
    let ghost glyphs = font@.1;
    let ghost bw = bmp_w as int;
    let ghost bh = bmp_h as int;
    let ghost width = font.meta.width;
    let ghost height = font.meta.height;
    assert(pixels@ =~= layout(glyphs, width, height, 0, bw, bh));
    let count = font.glyphs.len();
    let mut i: usize = 0;
    while i < count
        invariant
            i <= count,
            cols == 16,
            count == glyphs.len(),
            glyphs == font@.1,
            grid_accepts(font.meta, glyphs),
            w == width,
            h == height,
            width == font.meta.width,
            height == font.meta.height,
            rows == grid_rows(font.meta.num_glyphs as int),
            bmp_w == grid_width(w as int),
            bmp_h == 1 + rows * (h + 1),
            bw == bmp_w,
            bh == bmp_h,
            bmp_w * bmp_h <= usize::MAX,
            pixels@ == layout(glyphs, width, height, i as int, bw, bh),
        decreases count - i,
    {
        let col = i % cols;
        let row = i / cols;
        proof {
            assert(row <= (count - 1) / 16);
            assert(1 + ((count - 1) / 16) * (h + 1) <= usize::MAX);
            assert(row * (h + 1) <= ((count - 1) / 16) * (h + 1)) by (nonlinear_arith)
                requires
                    row <= (count - 1) / 16,
                    0 <= h,
            ;
            assert(col * (w + 1) <= 15 * (w + 1)) by (nonlinear_arith)
                requires
                    col <= 15,
                    0 <= w,
            ;
        }
        let x0 = 1 + col * (w + 1);
        let y0 = 1 + row * (h + 1);
        proof {
            assert(glyphs[i as int] == font.glyphs@[i as int]@);
        }
        let cell = glyph_to_pixels(font.glyphs[i].as_slice(), font.meta.width, font.meta.height);
        let mut gy: usize = 0;
        while gy < h
            invariant
                i < count,
                count == glyphs.len(),
                grid_accepts(font.meta, glyphs),
                w == width,
                h == height,
                rows == grid_rows(font.meta.num_glyphs as int),
                width == font.meta.width,
                height == font.meta.height,
                bmp_w == grid_width(w as int),
                bmp_h == 1 + rows * (h + 1),
                bw == bmp_w,
                bh == bmp_h,
                bmp_w * bmp_h <= usize::MAX,
                col == i % 16,
                row == i / 16,
                x0 == 1 + col * (w + 1),
                y0 == 1 + row * (h + 1),
                gy <= h,
                cell@ == glyph_pixels(glyphs[i as int], width, height),
                pixels@.len() == bw * bh,
                forall|k: int|
                    #![trigger pixels@[k]]
                    0 <= k < bw * bh ==> pixels@[k] == placing_pixel(
                        glyphs,
                        width,
                        height,
                        i as int,
                        gy as int,
                        0,
                        k % bw,
                        k / bw,
                    ),
            decreases h - gy,
        {
            let mut gx: usize = 0;
            while gx < w
                invariant
                    i < count,
                    count == glyphs.len(),
                    grid_accepts(font.meta, glyphs),
                    w == width,
                    h == height,
                    rows == grid_rows(font.meta.num_glyphs as int),
                    width == font.meta.width,
                    height == font.meta.height,
                    bmp_w == grid_width(w as int),
                    bmp_h == 1 + rows * (h + 1),
                    bw == bmp_w,
                    bh == bmp_h,
                    bmp_w * bmp_h <= usize::MAX,
                    col == i % 16,
                    row == i / 16,
                    x0 == 1 + col * (w + 1),
                    y0 == 1 + row * (h + 1),
                    gy < h,
                    gx <= w,
                    cell@ == glyph_pixels(glyphs[i as int], width, height),
                    pixels@.len() == bw * bh,
                    forall|k: int|
                        #![trigger pixels@[k]]
                        0 <= k < bw * bh ==> pixels@[k] == placing_pixel(
                            glyphs,
                            width,
                            height,
                            i as int,
                            gy as int,
                            gx as int,
                            k % bw,
                            k / bw,
                        ),
                decreases w - gx,
            {
                proof {
                    assert(i < 16 * rows);
                    assert(row < rows);
                    assert(y0 + gy < bmp_h) by (nonlinear_arith)
                        requires
                            y0 == 1 + row * (h + 1),
                            row < rows,
                            gy < h,
                            bmp_h == 1 + rows * (h + 1),
                    ;
                    assert(x0 + gx < bmp_w) by (nonlinear_arith)
                        requires
                            x0 == 1 + col * (w + 1),
                            col < 16,
                            gx < w,
                            bmp_w == 1 + 16 * (w + 1),
                    ;
                    lemma_index_in_grid((y0 + gy) as int, (x0 + gx) as int, bw, bh);
                    lemma_index_in_grid(gy as int, gx as int, w as int, h as int);
                    assert(h * w == w * h) by (nonlinear_arith);
                    lemma_cell_pos(i as int, gy as int, gx as int, w as int, h as int);
                }
                let k0 = (y0 + gy) * bmp_w + (x0 + gx);
                let p = cell[gy * w + gx];
                pixels.set(k0, p);
                proof {
                    assert forall|k: int| 0 <= k < bw * bh implies #[trigger] pixels@[k]
                        == placing_pixel(
                        glyphs,
                        width,
                        height,
                        i as int,
                        gy as int,
                        gx + 1,
                        k % bw,
                        k / bw,
                    ) by {
                        assert(bw > 0);
                        lemma_grid_coords(k, bw, bh);
                        let x = k % bw;
                        let y = k / bw;
                        if k == k0 {
                            lemma_index_in_grid((y0 + gy) as int, (x0 + gx) as int, bw, bh);
                        } else if !on_separator(x, y, w as int, h as int) && cell_of(
                            x,
                            y,
                            w as int,
                            h as int,
                        ) == i && y % (h + 1) - 1 == gy && x % (w + 1) - 1 == gx {
                            lemma_cell_unique(x, y, w as int, h as int);
                            assert(false);
                        }
                    }
                }
                gx = gx + 1;
            }
            proof {
                assert forall|k: int| 0 <= k < bw * bh implies #[trigger] pixels@[k]
                    == placing_pixel(glyphs, width, height, i as int, gy + 1, 0, k % bw, k / bw) by {
                    assert(bw > 0);
                    lemma_grid_coords(k, bw, bh);
                    let x = k % bw;
                    let y = k / bw;
                    if !on_separator(x, y, w as int, h as int) {
                        lemma_cell_unique(x, y, w as int, h as int);
                    }
                }
            }
            gy = gy + 1;
        }
        proof {
            assert forall|k: int| 0 <= k < bw * bh implies #[trigger] pixels@[k] == layout(
                glyphs,
                width,
                height,
                i + 1,
                bw,
                bh,
            )[k] by {
                assert(bw > 0);
                lemma_grid_coords(k, bw, bh);
                let x = k % bw;
                let y = k / bw;
                if !on_separator(x, y, w as int, h as int) {
                    lemma_cell_unique(x, y, w as int, h as int);
                }
            }
            assert(pixels@ =~= layout(glyphs, width, height, i + 1, bw, bh));
        }
        i = i + 1;
    }
    (bmp_w, bmp_h, pixels)
}

/// Why a grid could not be made or read.
#[derive(Debug, Clone, Copy, PartialEq, Eq, Structural)]
pub enum GridError {
    /// A PSF1 font must be 8 pixels wide.
    Psf1WidthNot8,
    /// The image dimensions differ from those the metadata implies.
    SizeMismatch { width: usize, height: usize, expected_width: usize, expected_height: usize },
}

/// Draws the empty grid for a new font: black cells with red separators,
/// and the metadata of the font (flags 0). PSF1 fonts must be 8 pixels wide.
pub fn blank_grid(width: u32, height: u32, num_glyphs: u32, version: u8) -> (res: Result<
    (FontMeta, usize, usize, Vec<[u8; 3]>),
    GridError,
>)
    requires
        !(version == 1 && width != 8) ==> grid_fits(width, height, num_glyphs),
    ensures
        (version == 1 && width != 8) ==> res == Err::<(FontMeta, usize, usize, Vec<[u8; 3]>), GridError>(GridError::Psf1WidthNot8),
        !(version == 1 && width != 8) ==> res is Ok,
        res matches Ok((meta, bw, bh, pixels)) ==> {
            &&& meta == FontMeta { version, width, height, num_glyphs, flags: 0 }
            &&& bw == grid_width(width as int)
            &&& bh == grid_height(height as int, num_glyphs as int)
            &&& pixels@ == layout(Seq::empty(), width, height, 0, bw as int, bh as int)
        },
{
    if version == 1 && width != 8 {
        return Err(GridError::Psf1WidthNot8);
    }
    let meta = FontMeta { version, width, height, num_glyphs, flags: 0 };
    let cols = 16usize;
    let w = width as usize;
    let h = height as usize;
    let n = num_glyphs as usize;
    let rows = (n + cols - 1) / cols;
    assert(rows == grid_rows(n as int));
    let bmp_w = 1 + cols * (w + 1);
    let bmp_h = 1 + rows * (h + 1);
    let pixels = separator_grid(w, h, bmp_w, bmp_h);
    Ok((meta, bmp_w, bmp_h, pixels))
}

/// The pixels of cell `i` of a grid `bw` pixels wide, row by row.
pub open spec fn cell_pixels(pixels: Seq<[u8; 3]>, width: u32, height: u32, bw: int, i: int) -> Seq<
    [u8; 3],
> {
    let w = width as int;
    let h = height as int;
    Seq::new(
        (w * h) as nat,
        |k: int| pixels[(1 + (i / 16) * (h + 1) + k / w) * bw + 1 + (i % 16) * (w + 1) + k % w],
    )
}

/// The glyphs read back from the cells of a grid `bw` pixels wide.
pub open spec fn grid_glyphs(pixels: Seq<[u8; 3]>, meta: FontMeta, bw: int) -> Seq<Seq<u8>> {
    Seq::new(
        meta.num_glyphs as nat,
        |i: int| packed_glyph(cell_pixels(pixels, meta.width, meta.height, bw, i), meta.width, meta.height),
    )
}

/// The font that `grid_to_font` reads from a grid, or its error.
pub open spec fn grid_decode(meta: FontMeta, bw: int, bh: int, pixels: Seq<[u8; 3]>) -> Result<
    (FontMeta, Seq<Seq<u8>>),
    GridError,
> {
    let ew = grid_width(meta.width as int);
    let eh = grid_height(meta.height as int, meta.num_glyphs as int);
    if bw != ew || bh != eh {
        Err(
            GridError::SizeMismatch {
                width: bw as usize,
                height: bh as usize,
                expected_width: ew as usize,
                expected_height: eh as usize,
            },
        )
    } else {
        Ok((meta, grid_glyphs(pixels, meta, bw)))
    }
}

/// The font a grid read returned, or its error.
pub open spec fn grid_font_view(r: Result<PsfFont, GridError>) -> Result<(FontMeta, Seq<Seq<u8>>), GridError> {
    match r {
        Ok(f) => Ok(f@),
        Err(e) => Err(e),
    }
}

/// Grids that `grid_to_font` reads without overflow or out-of-bounds access.
pub open spec fn grid_readable(meta: FontMeta, bw: int, bh: int, pixel_count: int) -> bool {
    &&& grid_dims_fit(meta.width, meta.height, meta.num_glyphs)
    &&& (bw == grid_width(meta.width as int) && bh == grid_height(
        meta.height as int,
        meta.num_glyphs as int,
    )) ==> {
        &&& pixel_count >= bw * bh
        &&& meta.num_glyphs > 0 ==> meta.width + 7 <= u32::MAX
    }
}

/// Reads the glyphs of a font back from its grid: the metadata gives the
/// glyph size and count, and the grid must have exactly the dimensions they imply.
pub fn grid_to_font(meta: FontMeta, bmp_w: usize, bmp_h: usize, pixels: &[[u8; 3]]) -> (res: Result<
    PsfFont,
    GridError,
>)
    requires
        grid_readable(meta, bmp_w as int, bmp_h as int, pixels@.len() as int),
    ensures
        grid_font_view(res) == grid_decode(meta, bmp_w as int, bmp_h as int, pixels@),
{
    let w = meta.width as usize;
    let h = meta.height as usize;
    let n = meta.num_glyphs as usize;
    let cols = 16usize;
    let rows = (n + cols - 1) / cols;
    assert(rows == grid_rows(n as int));
    let expected_w = 1 + cols * (w + 1);
    let expected_h = 1 + rows * (h + 1);
    if bmp_w != expected_w || bmp_h != expected_h {
        return Err(
            GridError::SizeMismatch {
                width: bmp_w,
                height: bmp_h,
                expected_width: expected_w,
                expected_height: expected_h,
            },
        );
    }
    let pixel_count = pixels.len();
    assert(bmp_w * bmp_h <= pixel_count);
    let ghost bw = bmp_w as int;
    let ghost bh = bmp_h as int;
    let ghost spec = grid_glyphs(pixels@, meta, bw);
    let mut glyphs: Vec<Vec<u8>> = Vec::with_capacity(n);
    let mut i: usize = 0;
    while i < n
        invariant
            i <= n,
            cols == 16,
            n == meta.num_glyphs,
            w == meta.width,
            h == meta.height,
            rows == grid_rows(n as int),
            bmp_w == grid_width(w as int),
            bmp_h == 1 + rows * (h + 1),
            bw == bmp_w,
            bh == bmp_h,
            bmp_w * bmp_h <= usize::MAX,
            pixels@.len() >= bw * bh,
            n > 0 ==> meta.width + 7 <= u32::MAX,
            h + 1 <= usize::MAX,
            spec == grid_glyphs(pixels@, meta, bw),
            glyphs@.len() == i,
            forall|j: int| 0 <= j < i ==> (#[trigger] glyphs@[j])@ == spec[j],
        decreases n - i,
    {
        let col = i % cols;
        let row = i / cols;
        proof {
            assert(row < rows);
            assert(row * (h + 1) < bmp_h) by (nonlinear_arith)
                requires
                    row < rows,
                    bmp_h == 1 + rows * (h + 1),
                    0 <= h,
            ;
            assert(col * (w + 1) <= 15 * (w + 1)) by (nonlinear_arith)
                requires
                    col <= 15,
                    0 <= w,
            ;
        }
        let x0 = 1 + col * (w + 1);
        let y0 = 1 + row * (h + 1);
        let ghost cspec = cell_pixels(pixels@, meta.width, meta.height, bw, i as int);
        proof {
            if w > 0 && h > 0 {
                assert(h < bmp_h) by (nonlinear_arith)
                    requires
                        row < rows,
                        bmp_h == 1 + rows * (h + 1),
                        0 <= row,
                ;
                assert(w * h <= bmp_w * bmp_h) by (nonlinear_arith)
                    requires
                        w < bmp_w,
                        h < bmp_h,
                ;
            } else {
                assert(w * h == 0) by (nonlinear_arith)
                    requires
                        w == 0 || h == 0,
                ;
            }
        }
        let mut cell: Vec<[u8; 3]> = Vec::with_capacity(w * h);
        let mut gy: usize = 0;
        while gy < h
            invariant
                gy <= h,
                i < n,
                cols == 16,
                col == i % 16,
                row == i / 16,
                row < rows,
                x0 == 1 + col * (w + 1),
                y0 == 1 + row * (h + 1),
                n == meta.num_glyphs,
                w == meta.width,
                h == meta.height,
                rows == grid_rows(n as int),
                bmp_w == grid_width(w as int),
                bmp_h == 1 + rows * (h + 1),
                bw == bmp_w,
                bh == bmp_h,
                bmp_w * bmp_h <= usize::MAX,
                pixels@.len() >= bw * bh,
                cspec == cell_pixels(pixels@, meta.width, meta.height, bw, i as int),
                cell@.len() == gy * w,
                forall|k: int| 0 <= k < cell@.len() ==> #[trigger] cell@[k] == cspec[k],
            decreases h - gy,
        {
            let mut gx: usize = 0;
            while gx < w
                invariant
                    gy < h,
                    gx <= w,
                    i < n,
                    cols == 16,
                    col == i % 16,
                    row == i / 16,
                    row < rows,
                    x0 == 1 + col * (w + 1),
                    y0 == 1 + row * (h + 1),
                    n == meta.num_glyphs,
                    w == meta.width,
                    h == meta.height,
                    rows == grid_rows(n as int),
                    bmp_w == grid_width(w as int),
                    bmp_h == 1 + rows * (h + 1),
                    bw == bmp_w,
                    bh == bmp_h,
                    bmp_w * bmp_h <= usize::MAX,
                    pixels@.len() >= bw * bh,
                    cspec == cell_pixels(pixels@, meta.width, meta.height, bw, i as int),
                    cell@.len() == gy * w + gx,
                    forall|k: int| 0 <= k < cell@.len() ==> #[trigger] cell@[k] == cspec[k],
                decreases w - gx,
            {
                proof {
                    assert(y0 + gy < bmp_h) by (nonlinear_arith)
                        requires
                            y0 == 1 + row * (h + 1),
                            row < rows,
                            gy < h,
                            bmp_h == 1 + rows * (h + 1),
                    ;
                    assert(x0 + gx < bmp_w) by (nonlinear_arith)
                        requires
                            x0 == 1 + col * (w + 1),
                            col < 16,
                            gx < w,
                            bmp_w == 1 + 16 * (w + 1),
                    ;
                    lemma_index_in_grid((y0 + gy) as int, (x0 + gx) as int, bw, bh);
                    assert(bh * bw == bw * bh) by (nonlinear_arith);
                    lemma_index_in_grid(gy as int, gx as int, w as int, h as int);
                    assert(h * w == w * h) by (nonlinear_arith);
                }
                cell.push(pixels[(y0 + gy) * bmp_w + (x0 + gx)]);
                gx = gx + 1;
            }
            assert((gy + 1) * w == gy * w + w) by (nonlinear_arith);
            gy = gy + 1;
        }
        proof {
            assert(h * w == w * h) by (nonlinear_arith);
            assert(cell@ =~= cspec);
            assert(meta.height * row_bytes(meta.width as int) <= usize::MAX) by (nonlinear_arith)
                requires
                    row_bytes(meta.width as int) <= w || w == 0,
                    w == 0 ==> row_bytes(meta.width as int) == 0,
                    w * h <= usize::MAX,
                    h == meta.height,
            ;
        }
        let g = pixels_to_glyph(cell.as_slice(), meta.width, meta.height);
        glyphs.push(g);
        i = i + 1;
    }
    let font = PsfFont { meta, glyphs };
    assert(glyphs_view(font.glyphs@) =~= spec);
    Ok(font)
}

proof fn lemma_cell_in_bounds(c: int, count: int, g: int, size: int)
    requires
        0 <= c < count,
        0 <= g < size,
    ensures
        1 + c * (size + 1) + g < 1 + count * (size + 1),
{
    assert(1 + c * (size + 1) + g < 1 + count * (size + 1)) by (nonlinear_arith)
        requires
            0 <= c < count,
            0 <= g < size,
    ;
}

/// The pixels of an all-black cell.
pub open spec fn black_cell(width: u32, height: u32) -> Seq<[u8; 3]> {
    Seq::new((width * height) as nat, |k: int| black())
}

proof fn lemma_cell_of_layout(meta: FontMeta, glyphs: Seq<Seq<u8>>, filled: int, i: int)
    requires
        0 <= i < meta.num_glyphs,
    ensures
        cell_pixels(
            layout(
                glyphs,
                meta.width,
                meta.height,
                filled,
                grid_width(meta.width as int),
                grid_height(meta.height as int, meta.num_glyphs as int),
            ),
            meta.width,
            meta.height,
            grid_width(meta.width as int),
            i,
        ) == if i < filled {
            glyph_pixels(glyphs[i], meta.width, meta.height)
        } else {
            black_cell(meta.width, meta.height)
        },
{
    let w = meta.width as int;
    let h = meta.height as int;
    let n = meta.num_glyphs as int;
    let gw = grid_width(w);
    let gh = grid_height(h, n);
    let rows = grid_rows(n);
    let lay = layout(glyphs, meta.width, meta.height, filled, gw, gh);
    let cell = cell_pixels(lay, meta.width, meta.height, gw, i);
    let expect = if i < filled {
        glyph_pixels(glyphs[i], meta.width, meta.height)
    } else {
        black_cell(meta.width, meta.height)
    };
    assert(i / 16 < rows);
    assert(h * w == w * h) by (nonlinear_arith);
    assert forall|k: int| 0 <= k < w * h implies #[trigger] cell[k] == expect[k] by {
        assert(w > 0) by (nonlinear_arith)
            requires
                0 <= k < w * h,
                0 <= h,
        ;
        vstd::arithmetic::div_mod::lemma_fundamental_div_mod(k, w);
        let gy = k / w;
        let gx = k % w;
        assert(w * gy == gy * w) by (nonlinear_arith);
        assert(gy < h) by (nonlinear_arith)
            requires
                k == w * gy + gx,
                0 <= gx,
                k < w * h,
                0 < w,
        ;
        let x = 1 + (i % 16) * (w + 1) + gx;
        let y = 1 + (i / 16) * (h + 1) + gy;
        lemma_cell_in_bounds(i / 16, rows, gy, h);
        lemma_cell_in_bounds(i % 16, 16, gx, w);
        lemma_index_in_grid(y, x, gw, gh);
        assert(gh * gw == gw * gh) by (nonlinear_arith);
        lemma_cell_pos(i, gy, gx, w, h);
        assert(cell[k] == lay[y * gw + x]);
    }
    assert(cell =~= expect);
}

/// Drawing a font's grid and reading the glyphs back from it gives, for each
/// glyph, the glyph packed from its own pixels.
pub proof fn grid_write_then_read(meta: FontMeta, glyphs: Seq<Seq<u8>>)
    requires
        meta.num_glyphs == glyphs.len(),
    ensures
        grid_decode(
            meta,
            grid_width(meta.width as int),
            grid_height(meta.height as int, meta.num_glyphs as int),
            layout(
                glyphs,
                meta.width,
                meta.height,
                glyphs.len() as int,
                grid_width(meta.width as int),
                grid_height(meta.height as int, meta.num_glyphs as int),
            ),
        ) == Ok::<_, GridError>(
            (
                meta,
                Seq::new(
                    glyphs.len(),
                    |i: int| packed_glyph(glyph_pixels(glyphs[i], meta.width, meta.height), meta.width, meta.height),
                ),
            ),
        ),
{
    let gw = grid_width(meta.width as int);
    let gh = grid_height(meta.height as int, meta.num_glyphs as int);
    let lay = layout(glyphs, meta.width, meta.height, glyphs.len() as int, gw, gh);
    let expect = Seq::new(
        glyphs.len(),
        |i: int| packed_glyph(glyph_pixels(glyphs[i], meta.width, meta.height), meta.width, meta.height),
    );
    assert forall|i: int| 0 <= i < glyphs.len() implies #[trigger] grid_glyphs(lay, meta, gw)[i]
        == expect[i] by {
        lemma_cell_of_layout(meta, glyphs, glyphs.len() as int, i);
    }
    assert(grid_glyphs(lay, meta, gw) =~= expect);
}

/// Drawing a font's grid and reading the glyphs back gives the same font,
/// when every glyph's padding bits are clear.
pub proof fn grid_round_trip(meta: FontMeta, glyphs: Seq<Seq<u8>>)
    requires
        meta.num_glyphs == glyphs.len(),
        forall|i: int|
            0 <= i < glyphs.len() ==> padding_clear(#[trigger] glyphs[i], meta.width, meta.height),
        forall|i: int|
            0 <= i < glyphs.len() ==> (#[trigger] glyphs[i]).len() == meta.height * row_bytes(
                meta.width as int,
            ),
    ensures
        grid_decode(
            meta,
            grid_width(meta.width as int),
            grid_height(meta.height as int, meta.num_glyphs as int),
            layout(
                glyphs,
                meta.width,
                meta.height,
                glyphs.len() as int,
                grid_width(meta.width as int),
                grid_height(meta.height as int, meta.num_glyphs as int),
            ),
        ) == Ok::<_, GridError>((meta, glyphs)),
{
    grid_write_then_read(meta, glyphs);
    let expect = Seq::new(
        glyphs.len(),
        |i: int| packed_glyph(glyph_pixels(glyphs[i], meta.width, meta.height), meta.width, meta.height),
    );
    assert forall|i: int| 0 <= i < glyphs.len() implies #[trigger] expect[i] == glyphs[i] by {
        glyph_round_trip(glyphs[i], meta.width, meta.height);
    }
    assert(expect =~= glyphs);
}

/// Whether two grids of `bw` x `bh` pixels agree at every pixel inside the
/// cell of a glyph below the glyph count (pixel `k` lies in column `k % bw`,
/// row `k / bw`); separators and unused cells may differ.
pub open spec fn same_glyph_cells(meta: FontMeta, bw: int, bh: int, p1: Seq<[u8; 3]>, p2: Seq<
    [u8; 3],
>) -> bool {
    forall|k: int|
        0 <= k < bw * bh && !on_separator(k % bw, k / bw, meta.width as int, meta.height as int)
            && cell_of(k % bw, k / bw, meta.width as int, meta.height as int) < meta.num_glyphs
            ==> #[trigger] p1[k] == p2[k]
}

/// Only the pixels of the used glyph cells of a grid are read: two grids of
/// the same dimensions that agree there read back the same way, whatever
/// their separators and unused cells hold.
pub proof fn grid_reads_only_cells(meta: FontMeta, bw: int, bh: int, p1: Seq<[u8; 3]>, p2: Seq<[u8; 3]>)
    requires
        same_glyph_cells(meta, bw, bh, p1, p2),
    ensures
        grid_decode(meta, bw, bh, p1) == grid_decode(meta, bw, bh, p2),
{
    let w = meta.width as int;
    let h = meta.height as int;
    let n = meta.num_glyphs as int;
    if bw == grid_width(w) && bh == grid_height(h, n) {
        let rows = grid_rows(n);
        assert forall|i: int| 0 <= i < n implies #[trigger] grid_glyphs(p1, meta, bw)[i]
            == grid_glyphs(p2, meta, bw)[i] by {
            let c1 = cell_pixels(p1, meta.width, meta.height, bw, i);
            let c2 = cell_pixels(p2, meta.width, meta.height, bw, i);
            assert(i / 16 < rows);
            assert forall|k: int| 0 <= k < w * h implies #[trigger] c1[k] == c2[k] by {
                assert(w > 0) by (nonlinear_arith)
                    requires
                        0 <= k < w * h,
                        0 <= h,
                ;
                vstd::arithmetic::div_mod::lemma_fundamental_div_mod(k, w);
                let gy = k / w;
                let gx = k % w;
                assert(w * gy == gy * w) by (nonlinear_arith);
                assert(gy < h) by (nonlinear_arith)
                    requires
                        k == w * gy + gx,
                        0 <= gx,
                        k < w * h,
                        0 < w,
                ;
                let x = 1 + (i % 16) * (w + 1) + gx;
                let y = 1 + (i / 16) * (h + 1) + gy;
                lemma_cell_in_bounds(i / 16, rows, gy, h);
                lemma_cell_in_bounds(i % 16, 16, gx, w);
                lemma_index_in_grid(y, x, bw, bh);
                assert(bh * bw == bw * bh) by (nonlinear_arith);
                lemma_cell_pos(i, gy, gx, w, h);
                assert(c1[k] == p1[y * bw + x]);
                assert(c2[k] == p2[y * bw + x]);
            }
            assert(c1 =~= c2);
        }
        assert(grid_glyphs(p1, meta, bw) =~= grid_glyphs(p2, meta, bw));
    }
}

proof fn lemma_black_unlit(width: u32, height: u32, r: int, c: int)
    requires
        0 <= r < height,
        0 <= c,
    ensures
        !lit(black_cell(width, height), width, r, c),
{
    if c < width {
        lemma_index_in_grid(r, c, width as int, height as int);
        assert(height * width == width * height) by (nonlinear_arith);
    }
}

/// Reading the glyphs back from the blank grid of a new font gives glyphs
/// whose bytes are all zero.
pub proof fn blank_grid_reads_as_empty_glyphs(meta: FontMeta)
    ensures
        grid_decode(
            meta,
            grid_width(meta.width as int),
            grid_height(meta.height as int, meta.num_glyphs as int),
            layout(
                Seq::empty(),
                meta.width,
                meta.height,
                0,
                grid_width(meta.width as int),
                grid_height(meta.height as int, meta.num_glyphs as int),
            ),
        ) == Ok::<_, GridError>(
            (
                meta,
                Seq::new(
                    meta.num_glyphs as nat,
                    |i: int| Seq::new((meta.height * row_bytes(meta.width as int)) as nat, |k: int| 0u8),
                ),
            ),
        ),
{
    let gw = grid_width(meta.width as int);
    let gh = grid_height(meta.height as int, meta.num_glyphs as int);
    let lay = layout(Seq::empty(), meta.width, meta.height, 0, gw, gh);
    let bpr = row_bytes(meta.width as int);
    let zero = Seq::new((meta.height * bpr) as nat, |k: int| 0u8);
    let expect = Seq::new(meta.num_glyphs as nat, |i: int| zero);
    assert forall|i: int| 0 <= i < meta.num_glyphs implies #[trigger] grid_glyphs(lay, meta, gw)[i]
        == expect[i] by {
        lemma_cell_of_layout(meta, Seq::empty(), 0, i);
        let cell = black_cell(meta.width, meta.height);
        let packed = packed_glyph(cell, meta.width, meta.height);
        assert forall|k: int| 0 <= k < packed.len() implies #[trigger] packed[k] == 0u8 by {
            vstd::arithmetic::div_mod::lemma_fundamental_div_mod(k, bpr);
            let r = k / bpr;
            let bc = k % bpr;
            assert(bpr * r == r * bpr) by (nonlinear_arith);
            assert(r < meta.height) by (nonlinear_arith)
                requires
                    k == bpr * r + bc,
                    0 <= bc,
                    k < meta.height * bpr,
                    0 < bpr,
            ;
            lemma_black_unlit(meta.width, meta.height, r, bc * 8);
            lemma_black_unlit(meta.width, meta.height, r, bc * 8 + 1);
            lemma_black_unlit(meta.width, meta.height, r, bc * 8 + 2);
            lemma_black_unlit(meta.width, meta.height, r, bc * 8 + 3);
            lemma_black_unlit(meta.width, meta.height, r, bc * 8 + 4);
            lemma_black_unlit(meta.width, meta.height, r, bc * 8 + 5);
            lemma_black_unlit(meta.width, meta.height, r, bc * 8 + 6);
            lemma_black_unlit(meta.width, meta.height, r, bc * 8 + 7);
            lemma_partial_as_sum(cell, meta.width, r, bc);
        }
        assert(packed =~= zero);
    }
    assert(grid_glyphs(lay, meta, gw) =~= expect);
}

} // verus!
