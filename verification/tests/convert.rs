use psftool::bmp::{decode_bmp, encode_bmp, BmpError};
use psftool::convert::{blank_bmp, bmp_to_psf, psf_to_bmp, ConvertError};
use psftool::grid::GridError;
use psftool::meta::FontMeta;
use psftool::psf::PsfError;

fn psf2(width: u32, height: u32, glyphs: &[&[u8]]) -> Vec<u8> {
    let bpg = height * ((width + 7) / 8);
    let mut d = vec![0x72, 0xb5, 0x4a, 0x86];
    for f in [0u32, 32, 0, glyphs.len() as u32, bpg, height, width] {
        d.extend_from_slice(&f.to_le_bytes());
    }
    for g in glyphs {
        d.extend_from_slice(g);
    }
    d
}

#[test]
fn psf_to_bmp_creates_files() {
    let psf_data = psf2(8, 2, &[&[0xFF, 0x00], &[0x00, 0xFF]]);
    let (meta, bmp) = psf_to_bmp(&psf_data).unwrap();
    assert_eq!(meta, FontMeta { version: 2, width: 8, height: 2, num_glyphs: 2, flags: 0 });
    let (w, h, pixels) = decode_bmp(&bmp).unwrap();
    assert_eq!((w, h), (145, 4));
    assert_eq!(pixels[w + 1], [255, 255, 255]);
    assert_eq!(pixels[2 * w + 1], [0, 0, 0]);
    assert_eq!(pixels[w + 10], [0, 0, 0]);
    assert_eq!(pixels[2 * w + 10], [255, 255, 255]);
}

#[test]
fn bmp_to_psf_round_trip() {
    let psf_data = psf2(8, 2, &[&[0xFF, 0x00], &[0xAA, 0x55], &[0x0F, 0xF0], &[0x00, 0xFF]]);
    let (meta, bmp) = psf_to_bmp(&psf_data).unwrap();
    let result = bmp_to_psf(meta, &bmp).unwrap();
    assert_eq!(&result[32..], &psf_data[32..], "glyph data mismatch after round-trip");
}

#[test]
fn round_trip_psf2() {
    let mut glyphs = vec![];
    for i in 0..32u32 {
        glyphs.push((0..16u32).map(|j| ((i * 16 + j) % 256) as u8).collect::<Vec<u8>>());
    }
    let refs: Vec<&[u8]> = glyphs.iter().map(|g| g.as_slice()).collect();
    let original = psf2(8, 16, &refs);
    let (meta, bmp) = psf_to_bmp(&original).unwrap();
    let result = bmp_to_psf(meta, &bmp).unwrap();
    assert_eq!(result, original);
}

#[test]
fn psf1_round_trip_is_byte_exact() {
    let mut data = vec![0x36, 0x04, 0x02, 3u8];
    for i in 0..(256 * 3) {
        data.push((i * 7 % 256) as u8);
    }
    let (meta, bmp) = psf_to_bmp(&data).unwrap();
    assert_eq!(meta.version, 1);
    assert_eq!(bmp_to_psf(meta, &bmp).unwrap(), data);
}

#[test]
fn wide_glyphs_round_trip() {
    let g: Vec<u8> = (0..32u8).collect();
    let data = psf2(16, 16, &[&g, &g[..].iter().rev().cloned().collect::<Vec<u8>>()]);
    let (meta, bmp) = psf_to_bmp(&data).unwrap();
    assert_eq!(bmp_to_psf(meta, &bmp).unwrap(), data);
}

#[test]
fn convert_errors() {
    assert_eq!(psf_to_bmp(&[1, 2, 3]).unwrap_err(), ConvertError::Psf(PsfError::NotPsf));
    let meta = FontMeta { version: 2, width: 8, height: 2, num_glyphs: 4, flags: 0 };
    assert_eq!(bmp_to_psf(meta, &[0u8; 4]).unwrap_err(), ConvertError::Bmp(BmpError::TooSmall));
    let (_, small) = blank_bmp(8, 1, 1, 2).unwrap();
    assert_eq!(
        bmp_to_psf(meta, &small).unwrap_err(),
        ConvertError::Grid(GridError::SizeMismatch {
            width: 145,
            height: 3,
            expected_width: 145,
            expected_height: 4
        })
    );
    let bad = FontMeta { version: 7, width: 8, height: 1, num_glyphs: 1, flags: 0 };
    assert_eq!(bmp_to_psf(bad, &small).unwrap_err(), ConvertError::Psf(PsfError::UnknownVersion(7)));
    assert_eq!(
        blank_bmp(16, 16, 256, 1).unwrap_err(),
        ConvertError::Grid(GridError::Psf1WidthNot8)
    );
}

#[test]
fn blank_font_converts_to_empty_glyphs() {
    let (meta, bmp) = blank_bmp(16, 4, 3, 2).unwrap();
    assert_eq!(meta, FontMeta { version: 2, width: 16, height: 4, num_glyphs: 3, flags: 0 });
    let psf = bmp_to_psf(meta, &bmp).unwrap();
    assert_eq!(psf.len(), 32 + 3 * 8);
    assert!(psf[32..].iter().all(|b| *b == 0));
    let (meta1, bmp1) = blank_bmp(8, 8, 256, 1).unwrap();
    let psf1 = bmp_to_psf(meta1, &bmp1).unwrap();
    assert_eq!(&psf1[..4], &[0x36, 0x04, 0x00, 0x08]);
    assert_eq!(psf1.len(), 4 + 256 * 8);
}

#[test]
fn width_too_large_for_grid_drawing_is_out_of_range() {
    // a PSF2 font 0xFFFF_FFF9 pixels wide and 0 pixels high parses, but
    // computing its bytes per row overflows u32
    let mut data = vec![0x72, 0xb5, 0x4a, 0x86];
    for f in [0u32, 32, 0, 1, 0, 0, 0xFFFF_FFF9] {
        data.extend_from_slice(&f.to_le_bytes());
    }
    assert!(psftool::psf::parse(&data).is_ok());
    assert_eq!(psf_to_bmp(&data).unwrap_err(), ConvertError::OutOfRange);
}

#[test]
fn metadata_too_large_for_the_image_is_a_size_mismatch() {
    let (_, small) = blank_bmp(8, 1, 1, 2).unwrap();
    let meta = FontMeta {
        version: 2,
        width: u32::MAX,
        height: u32::MAX,
        num_glyphs: u32::MAX,
        flags: 0,
    };
    let expected_width = 1 + 16 * (u32::MAX as u64 + 1);
    let expected_height = 1 + ((u32::MAX as u64 + 15) / 16) * (u32::MAX as u64 + 1);
    assert_eq!(
        bmp_to_psf(meta, &small).unwrap_err(),
        ConvertError::Grid(GridError::SizeMismatch {
            width: 145,
            height: 3,
            expected_width: expected_width as usize,
            expected_height: expected_height as usize,
        })
    );
}

#[test]
fn narrow_glyphs_with_clear_padding_round_trip() {
    // 6 pixels wide: the low two bits of each row byte are padding
    let data = psf2(6, 3, &[&[0xFC, 0x84, 0xFC], &[0x30, 0x78, 0xB4]]);
    let (meta, bmp) = psf_to_bmp(&data).unwrap();
    assert_eq!(meta.width, 6);
    assert_eq!(bmp_to_psf(meta, &bmp).unwrap(), data);
}

#[test]
fn twelve_pixel_glyphs_with_clear_padding_round_trip() {
    // 12 pixels wide: two bytes per row, the low four bits of the second are padding
    let data = psf2(12, 2, &[&[0xFF, 0xF0, 0x80, 0x10], &[0x12, 0x30, 0xAB, 0xC0]]);
    let (meta, bmp) = psf_to_bmp(&data).unwrap();
    assert_eq!(bmp_to_psf(meta, &bmp).unwrap(), data);
}

#[test]
fn set_padding_bits_are_cleared_by_the_round_trip() {
    let data = psf2(6, 1, &[&[0xFF]]);
    let (meta, bmp) = psf_to_bmp(&data).unwrap();
    assert_eq!(bmp_to_psf(meta, &bmp).unwrap(), psf2(6, 1, &[&[0xFC]]));
}

#[test]
fn separators_and_unused_cells_are_ignored() {
    let data = psf2(8, 2, &[&[0xFF, 0x00], &[0x81, 0x42], &[0x0F, 0xF0]]);
    let (meta, bmp) = psf_to_bmp(&data).unwrap();
    let (w, h, mut pixels) = decode_bmp(&bmp).unwrap();
    // paint every separator pixel white and fill the unused cells (glyph 3 onwards)
    for y in 0..h {
        for x in 0..w {
            let separator = x % 9 == 0 || y % 3 == 0;
            let cell = (y / 3) * 16 + x / 9;
            if separator || cell >= 3 {
                pixels[y * w + x] = [255, 255, 255];
            }
        }
    }
    let edited = encode_bmp(w, h, &pixels).unwrap();
    assert_ne!(edited, bmp);
    assert_eq!(bmp_to_psf(meta, &edited).unwrap(), bmp_to_psf(meta, &bmp).unwrap());
    assert_eq!(bmp_to_psf(meta, &edited).unwrap(), data);
}

#[test]
fn blank_psf2_font_bytes() {
    let (meta, bmp) = blank_bmp(12, 3, 2, 2).unwrap();
    let mut expected = vec![0x72, 0xb5, 0x4a, 0x86];
    for f in [0u32, 32, 0, 2, 6, 3, 12] {
        expected.extend_from_slice(&f.to_le_bytes());
    }
    expected.extend_from_slice(&[0u8; 12]);
    assert_eq!(bmp_to_psf(meta, &bmp).unwrap(), expected);
}

#[test]
fn blank_psf1_font_bytes() {
    let (meta, bmp) = blank_bmp(8, 300, 2, 1).unwrap();
    let mut expected = vec![0x36, 0x04, 0x00, (300 % 256) as u8];
    expected.extend_from_slice(&vec![0u8; 2 * 300]);
    assert_eq!(bmp_to_psf(meta, &bmp).unwrap(), expected);
}

#[test]
fn blank_psf2_font_with_oversized_glyphs_is_refused_by_the_writer() {
    // no glyphs, so the grid is tiny, but 2^32 bytes per glyph do not fit the header
    let (meta, bmp) = blank_bmp(16, 0x8000_0000, 0, 2).unwrap();
    assert_eq!(
        bmp_to_psf(meta, &bmp).unwrap_err(),
        ConvertError::Psf(PsfError::Psf2DimensionsOverflow)
    );
}
