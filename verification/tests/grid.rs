use psftool::grid::{blank_grid, font_to_grid, grid_to_font, GridError};
use psftool::meta::FontMeta;
use psftool::psf::PsfFont;

const R: [u8; 3] = [255, 0, 0];
const W: [u8; 3] = [255, 255, 255];
const B: [u8; 3] = [0, 0, 0];

#[test]
fn blank_grid_dimensions_and_separators() {
    let (meta, w, h, pixels) = blank_grid(2, 1, 17, 2).unwrap();
    assert_eq!(meta, FontMeta { version: 2, width: 2, height: 1, num_glyphs: 17, flags: 0 });
    assert_eq!(w, 1 + 16 * 3);
    assert_eq!(h, 1 + 2 * 2);
    assert_eq!(pixels.len(), w * h);
    // top row and left column red; first cell black
    assert!(pixels[..w].iter().all(|p| *p == R));
    assert_eq!(pixels[w], R);
    assert_eq!(pixels[w + 1], B);
    assert_eq!(pixels[w + 2], B);
    assert_eq!(pixels[w + 3], R);
    assert_eq!(pixels[2 * w + 1], R);
}

#[test]
fn blank_grid_psf1_needs_width_8() {
    assert_eq!(blank_grid(7, 8, 256, 1).unwrap_err(), GridError::Psf1WidthNot8);
    assert!(blank_grid(8, 8, 256, 1).is_ok());
}

#[test]
fn font_to_grid_places_glyph_cells() {
    let font = PsfFont {
        meta: FontMeta { version: 2, width: 8, height: 1, num_glyphs: 17, flags: 0 },
        glyphs: (0..17u8).map(|i| vec![if i == 16 { 0x80 } else { 0x01 }]).collect(),
    };
    let (w, h, pixels) = font_to_grid(&font);
    assert_eq!((w, h), (145, 5));
    // glyph 0, bit 7 (rightmost pixel) lit
    assert_eq!(pixels[w + 8], W);
    assert_eq!(pixels[w + 7], B);
    // glyph 16 is in the second row of cells, leftmost pixel lit
    assert_eq!(pixels[3 * w + 1], W);
    assert_eq!(pixels[3 * w + 2], B);
    // unused cells of the last row stay black
    assert_eq!(pixels[3 * w + 10], B);
}

#[test]
fn grid_to_font_size_mismatch() {
    let meta = FontMeta { version: 2, width: 8, height: 2, num_glyphs: 4, flags: 0 };
    let err = grid_to_font(meta, 10, 10, &vec![B; 100]).unwrap_err();
    assert_eq!(
        err,
        GridError::SizeMismatch { width: 10, height: 10, expected_width: 145, expected_height: 4 }
    );
}

#[test]
fn grid_round_trip_keeps_glyphs() {
    let glyphs: Vec<Vec<u8>> = (0..20u8).map(|i| vec![i, i.wrapping_mul(37), 0xff - i]).collect();
    let font = PsfFont {
        meta: FontMeta { version: 2, width: 8, height: 3, num_glyphs: 20, flags: 0 },
        glyphs: glyphs.clone(),
    };
    let (w, h, pixels) = font_to_grid(&font);
    let back = grid_to_font(font.meta, w, h, &pixels).unwrap();
    assert_eq!(back.meta, font.meta);
    assert_eq!(back.glyphs, glyphs);
}
