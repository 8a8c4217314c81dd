use psftool::glyph::{glyph_to_pixels, pixels_to_glyph};

#[test]
fn glyph_to_pixels_full() {
    // 8x2 glyph: first row all-on (0xFF), second row all-off (0x00)
    let glyph = vec![0xFF, 0x00];
    let pixels = glyph_to_pixels(&glyph, 8, 2);
    for col in 0..8 {
        assert_eq!(pixels[col], [255, 255, 255]);
    }
    for col in 0..8 {
        assert_eq!(pixels[8 + col], [0, 0, 0]);
    }
}

#[test]
fn pixels_to_glyph_round_trip() {
    let glyph = vec![0b10101010u8, 0b01010101u8];
    let pixels = glyph_to_pixels(&glyph, 8, 2);
    let back = pixels_to_glyph(&pixels, 8, 2);
    assert_eq!(back, glyph);
}

#[test]
fn glyph_to_pixels_msb_is_leftmost() {
    let pixels = glyph_to_pixels(&[0b1000_0001, 0b0100_0000], 10, 1);
    assert_eq!(pixels.len(), 10);
    assert_eq!(pixels[0], [255, 255, 255]);
    assert_eq!(pixels[1], [0, 0, 0]);
    assert_eq!(pixels[7], [255, 255, 255]);
    assert_eq!(pixels[8], [0, 0, 0]);
    assert_eq!(pixels[9], [255, 255, 255]);
}

#[test]
fn narrow_glyph_round_trip_clears_padding_bits() {
    // 3 pixels wide: only the top 3 bits of each row byte are pixels
    let glyph = vec![0b1011_1111u8, 0b0100_0001u8];
    let pixels = glyph_to_pixels(&glyph, 3, 2);
    assert_eq!(pixels_to_glyph(&pixels, 3, 2), vec![0b1010_0000u8, 0b0100_0000u8]);
}

#[test]
fn pixels_to_glyph_threshold() {
    // on when r + g + b > 382
    let pixels = vec![[128u8, 127, 127], [128u8, 128, 127], [255u8, 0, 0], [200u8, 200, 0]];
    assert_eq!(pixels_to_glyph(&pixels, 4, 1), vec![0b0101_0000]);
}

#[test]
fn black_and_white_pixels_round_trip() {
    let w = [255u8, 255, 255];
    let b = [0u8, 0, 0];
    let pixels = vec![w, b, b, w, w, b, w, b, b, b, w, w];
    let glyph = pixels_to_glyph(&pixels, 12, 1);
    assert_eq!(glyph, vec![0b1001_1010, 0b0011_0000]);
    assert_eq!(glyph_to_pixels(&glyph, 12, 1), pixels);
}
