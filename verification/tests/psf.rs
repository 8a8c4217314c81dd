use psftool::meta::FontMeta;
use psftool::psf::{parse, read_u32, serialize, PsfError, PsfFont};

fn make_psf2(width: u32, height: u32, num_glyphs: u32, glyph_byte: u8) -> Vec<u8> {
    let bytes_per_glyph = height * ((width + 7) / 8);
    let mut data = vec![];
    data.extend_from_slice(&[0x72, 0xb5, 0x4a, 0x86]);
    data.extend_from_slice(&0u32.to_le_bytes());
    data.extend_from_slice(&32u32.to_le_bytes());
    data.extend_from_slice(&0u32.to_le_bytes());
    data.extend_from_slice(&num_glyphs.to_le_bytes());
    data.extend_from_slice(&bytes_per_glyph.to_le_bytes());
    data.extend_from_slice(&height.to_le_bytes());
    data.extend_from_slice(&width.to_le_bytes());
    for _ in 0..(num_glyphs * bytes_per_glyph) {
        data.push(glyph_byte);
    }
    data
}

fn psf2_header(fields: [u32; 7]) -> Vec<u8> {
    let mut data = vec![0x72, 0xb5, 0x4a, 0x86];
    for f in fields {
        data.extend_from_slice(&f.to_le_bytes());
    }
    data
}

#[test]
fn parse_psf2_basic() {
    let data = make_psf2(8, 16, 256, 0xAA);
    let font = parse(&data).unwrap();
    assert_eq!(font.meta.version, 2);
    assert_eq!(font.meta.width, 8);
    assert_eq!(font.meta.height, 16);
    assert_eq!(font.meta.num_glyphs, 256);
    assert_eq!(font.glyphs.len(), 256);
    assert_eq!(font.glyphs[0].len(), 16);
    assert_eq!(font.glyphs[0][0], 0xAA);
}

#[test]
fn parse_psf1_basic() {
    let mut data = vec![0x36, 0x04];
    data.push(0x00); // mode: 256 glyphs
    data.push(16); // charsize = height = 16
    for _ in 0..(256 * 16) {
        data.push(0xFF);
    }
    let font = parse(&data).unwrap();
    assert_eq!(font.meta.version, 1);
    assert_eq!(font.meta.width, 8);
    assert_eq!(font.meta.height, 16);
    assert_eq!(font.meta.num_glyphs, 256);
    assert_eq!(font.glyphs[0][0], 0xFF);
}

#[test]
fn serialize_psf2_round_trip() {
    let data = make_psf2(8, 16, 256, 0xAA);
    let font = parse(&data).unwrap();
    let out = serialize(&font).unwrap();
    assert_eq!(out, data);
}

#[test]
fn serialize_psf1_round_trip() {
    let mut data = vec![0x36, 0x04, 0x00, 16u8];
    for _ in 0..(256 * 16) {
        data.push(0xBB);
    }
    let font = parse(&data).unwrap();
    let out = serialize(&font).unwrap();
    assert_eq!(out, data);
}

#[test]
fn psf1_mode_bit_selects_512_glyphs() {
    let mut data = vec![0x36, 0x04, 0x03, 2u8];
    for i in 0..(512 * 2) {
        data.push((i % 256) as u8);
    }
    let font = parse(&data).unwrap();
    assert_eq!(font.meta.num_glyphs, 512);
    assert_eq!(font.meta.flags, 3);
    assert_eq!(font.glyphs.len(), 512);
    assert_eq!(font.glyphs[1], vec![2, 3]);
    assert_eq!(serialize(&font).unwrap(), data);
}

#[test]
fn psf1_trailing_bytes_are_not_written_back() {
    let mut data = vec![0x36, 0x04, 0x00, 1u8];
    for i in 0..256 {
        data.push(i as u8);
    }
    data.extend_from_slice(&[0xde, 0xad]);
    let font = parse(&data).unwrap();
    assert_eq!(font.glyphs[255], vec![255]);
    assert_eq!(serialize(&font).unwrap(), data[..4 + 256].to_vec());
}

#[test]
fn parse_errors() {
    assert_eq!(parse(&[]).unwrap_err(), PsfError::NotPsf);
    assert_eq!(parse(&[0x12, 0x34, 0x56]).unwrap_err(), PsfError::NotPsf);
    assert_eq!(parse(&[0x36, 0x04, 0x00]).unwrap_err(), PsfError::Psf1HeaderTruncated);
    assert_eq!(parse(&[0x36, 0x04, 0x00, 0x00]).unwrap_err(), PsfError::Psf1ZeroCharsize);
    assert_eq!(
        parse(&[0x36, 0x04, 0x01, 0x02, 0x00]).unwrap_err(),
        PsfError::Psf1Truncated { need: 512 * 2 + 4, got: 5 }
    );
    assert_eq!(parse(&[0x72, 0xb5, 0x4a, 0x86, 0, 0]).unwrap_err(), PsfError::Psf2HeaderTruncated);
    assert_eq!(
        parse(&psf2_header([0, 31, 0, 1, 1, 1, 8])).unwrap_err(),
        PsfError::Psf2HeaderSizeTooSmall(31)
    );
    assert_eq!(
        parse(&psf2_header([0, 32, 0, 1, 1, 2, 8])).unwrap_err(),
        PsfError::Psf2GlyphSizeTooSmall { bytes_per_glyph: 1, expected: 2 }
    );
    assert_eq!(
        parse(&psf2_header([0, 32, 0, 3, 2, 2, 8])).unwrap_err(),
        PsfError::Psf2Truncated { need: 38, got: 32 }
    );
}

#[test]
fn parse_psf2_with_longer_header_and_padding() {
    // header size 36, 12-pixel-wide glyphs (2 bytes per row), 5 bytes per glyph
    let mut data = psf2_header([0, 36, 7, 2, 5, 2, 12]);
    data.extend_from_slice(&[9, 9, 9, 9]);
    data.extend_from_slice(&[1, 2, 3, 4, 5, 6, 7, 8, 9, 10]);
    let font = parse(&data).unwrap();
    assert_eq!(font.meta, FontMeta { version: 2, width: 12, height: 2, num_glyphs: 2, flags: 7 });
    assert_eq!(font.glyphs, vec![vec![1, 2, 3, 4, 5], vec![6, 7, 8, 9, 10]]);
}

#[test]
fn read_u32_little_endian() {
    let data = [1u8, 2, 3, 4, 5];
    assert_eq!(read_u32(&data, 0), Ok(0x04030201));
    assert_eq!(read_u32(&data, 1), Ok(0x05040302));
    assert_eq!(read_u32(&data, 2), Err(PsfError::TruncatedAt(2)));
}

#[test]
fn serialize_errors() {
    let font = PsfFont {
        meta: FontMeta { version: 3, width: 8, height: 1, num_glyphs: 1, flags: 0 },
        glyphs: vec![vec![0]],
    };
    assert_eq!(serialize(&font).unwrap_err(), PsfError::UnknownVersion(3));
    let font = PsfFont {
        meta: FontMeta { version: 1, width: 9, height: 1, num_glyphs: 1, flags: 0 },
        glyphs: vec![vec![0]],
    };
    assert_eq!(serialize(&font).unwrap_err(), PsfError::Psf1WidthNot8(9));
    let font = PsfFont {
        meta: FontMeta { version: 1, width: 8, height: 2, num_glyphs: 3, flags: 0 },
        glyphs: vec![vec![0, 0], vec![0], vec![0, 0, 0]],
    };
    assert_eq!(
        serialize(&font).unwrap_err(),
        PsfError::Psf1GlyphSizeMismatch { index: 1, expected: 2, got: 1 }
    );
    let font = PsfFont {
        meta: FontMeta { version: 2, width: 10, height: 2, num_glyphs: 2, flags: 0 },
        glyphs: vec![vec![0, 0, 0, 0], vec![0, 0, 0]],
    };
    assert_eq!(
        serialize(&font).unwrap_err(),
        PsfError::GlyphSizeMismatch { expected: 4, got: 3 }
    );
}

#[test]
fn serialize_psf2_header_fields() {
    let font = PsfFont {
        meta: FontMeta { version: 2, width: 9, height: 1, num_glyphs: 7, flags: 0x0102_0304 },
        glyphs: vec![vec![0xa0, 0x80]],
    };
    let out = serialize(&font).unwrap();
    assert_eq!(out.len(), 34);
    assert_eq!(&out[0..4], &[0x72, 0xb5, 0x4a, 0x86]);
    assert_eq!(&out[4..8], &[0, 0, 0, 0]);
    assert_eq!(&out[8..12], &[32, 0, 0, 0]);
    assert_eq!(&out[12..16], &[4, 3, 2, 1]);
    assert_eq!(&out[16..20], &[7, 0, 0, 0]);
    assert_eq!(&out[20..24], &[2, 0, 0, 0]);
    assert_eq!(&out[24..28], &[1, 0, 0, 0]);
    assert_eq!(&out[28..32], &[9, 0, 0, 0]);
    assert_eq!(&out[32..], &[0xa0, 0x80]);
}

#[test]
fn serialize_psf1_truncates_flags_and_height_to_bytes() {
    let font = PsfFont {
        meta: FontMeta { version: 1, width: 8, height: 257, num_glyphs: 0, flags: 0x1ff },
        glyphs: vec![],
    };
    assert_eq!(serialize(&font).unwrap(), vec![0x36, 0x04, 0xff, 0x01]);
}

#[test]
fn serialize_psf2_dimensions_overflow() {
    // parses (bytes per glyph 0 suffices for height 0), but the writer
    // cannot compute width + 7 in u32
    let mut data = vec![0x72, 0xb5, 0x4a, 0x86];
    for f in [0u32, 32, 0, 1, 0, 0, 0xFFFF_FFF9] {
        data.extend_from_slice(&f.to_le_bytes());
    }
    let font = parse(&data).unwrap();
    assert_eq!(serialize(&font).unwrap_err(), PsfError::Psf2DimensionsOverflow);
    // 0x8000_0000 rows of 2 bytes: 2^32 bytes per glyph, beyond u32
    let font = PsfFont {
        meta: FontMeta { version: 2, width: 16, height: 0x8000_0000, num_glyphs: 0, flags: 0 },
        glyphs: vec![],
    };
    assert_eq!(serialize(&font).unwrap_err(), PsfError::Psf2DimensionsOverflow);
    // the largest glyph size that fits u32 is written
    let font = PsfFont {
        meta: FontMeta { version: 2, width: 8, height: 0xFFFF_FFFF, num_glyphs: 0, flags: 0 },
        glyphs: vec![],
    };
    let out = serialize(&font).unwrap();
    assert_eq!(&out[20..24], &[0xff, 0xff, 0xff, 0xff]);
}

#[test]
fn serialized_font_parses_back() {
    let meta = FontMeta { version: 2, width: 12, height: 2, num_glyphs: 2, flags: 1 };
    let glyphs = vec![vec![1u8, 2, 3, 4], vec![5u8, 6, 7, 8]];
    let font = PsfFont { meta, glyphs: glyphs.clone() };
    let back = parse(&serialize(&font).unwrap()).unwrap();
    assert_eq!(back.meta, meta);
    assert_eq!(back.glyphs, glyphs);
    let meta = FontMeta { version: 1, width: 8, height: 2, num_glyphs: 512, flags: 3 };
    let glyphs: Vec<Vec<u8>> = (0..512u32).map(|i| vec![i as u8, (i / 2) as u8]).collect();
    let font = PsfFont { meta, glyphs: glyphs.clone() };
    let back = parse(&serialize(&font).unwrap()).unwrap();
    assert_eq!(back.meta, meta);
    assert_eq!(back.glyphs, glyphs);
}

#[test]
fn parse_psf2_widest_glyphs_report_their_size() {
    // width u32::MAX: ceil(width / 8) = 2^29 bytes per row, computed without overflow
    let mut data = vec![0x72, 0xb5, 0x4a, 0x86];
    for f in [0u32, 32, 0, 1, 1, 2, u32::MAX] {
        data.extend_from_slice(&f.to_le_bytes());
    }
    assert_eq!(
        parse(&data).unwrap_err(),
        PsfError::Psf2GlyphSizeTooSmall { bytes_per_glyph: 1, expected: 0x4000_0000 }
    );
}
