use psftool::bmp::{decode_bmp, encode_bmp, BmpError};

#[test]
fn write_and_read_pixel() {
    // 3x2 image: top-left red, rest black
    let width = 3usize;
    let height = 2usize;
    let mut pixels = vec![[0u8; 3]; width * height]; // [R, G, B]
    pixels[0] = [255, 0, 0];

    let data = encode_bmp(width, height, &pixels).unwrap();
    let (rw, rh, rpix) = decode_bmp(&data).unwrap();
    assert_eq!(rw, width);
    assert_eq!(rh, height);
    assert_eq!(rpix[0], [255, 0, 0]);
    assert_eq!(rpix[1], [0, 0, 0]);
}

#[test]
fn encode_layout() {
    // 1x2 image: rows of 3 bytes padded to 4, blue-green-red order
    let data = encode_bmp(1, 2, &[[1, 2, 3], [4, 5, 6]]).unwrap();
    assert_eq!(data.len(), 54 + 8);
    assert_eq!(&data[0..2], b"BM");
    assert_eq!(&data[2..6], &62u32.to_le_bytes());
    assert_eq!(&data[10..14], &54u32.to_le_bytes());
    assert_eq!(&data[14..18], &40u32.to_le_bytes());
    assert_eq!(&data[18..22], &1i32.to_le_bytes());
    assert_eq!(&data[22..26], &(-2i32).to_le_bytes());
    assert_eq!(&data[26..28], &1u16.to_le_bytes());
    assert_eq!(&data[28..30], &24u16.to_le_bytes());
    assert_eq!(&data[38..42], &2835i32.to_le_bytes());
    assert_eq!(&data[54..], &[3, 2, 1, 0, 6, 5, 4, 0]);
}

#[test]
fn encode_rejects_wrong_pixel_count() {
    assert_eq!(
        encode_bmp(2, 2, &[[0, 0, 0]; 3]).unwrap_err(),
        BmpError::PixelCountMismatch { got: 3, width: 2, height: 2 }
    );
}

#[test]
fn decode_bottom_up_rows() {
    let mut data = encode_bmp(1, 2, &[[1, 2, 3], [4, 5, 6]]).unwrap();
    data[22..26].copy_from_slice(&2i32.to_le_bytes());
    let (w, h, pixels) = decode_bmp(&data).unwrap();
    assert_eq!((w, h), (1, 2));
    assert_eq!(pixels, vec![[4, 5, 6], [1, 2, 3]]);
}

#[test]
fn decode_errors() {
    assert_eq!(decode_bmp(&[0u8; 10]).unwrap_err(), BmpError::TooSmall);
    let good = encode_bmp(1, 1, &[[9, 9, 9]]).unwrap();
    let mut d = good.clone();
    d[0] = b'X';
    assert_eq!(decode_bmp(&d).unwrap_err(), BmpError::NotBmp);
    let mut d = good.clone();
    d[18..22].copy_from_slice(&(-3i32).to_le_bytes());
    assert_eq!(decode_bmp(&d).unwrap_err(), BmpError::InvalidWidth(-3));
    let mut d = good.clone();
    d[28..30].copy_from_slice(&32u16.to_le_bytes());
    assert_eq!(decode_bmp(&d).unwrap_err(), BmpError::UnsupportedBpp(32));
    let mut d = good.clone();
    d[30..34].copy_from_slice(&1u32.to_le_bytes());
    assert_eq!(decode_bmp(&d).unwrap_err(), BmpError::Compressed);
    let d = good[..good.len() - 1].to_vec();
    assert_eq!(decode_bmp(&d).unwrap_err(), BmpError::PixelDataTruncated);
}

#[test]
fn encode_decode_round_trip_odd_width() {
    let pixels: Vec<[u8; 3]> = (0..15u8).map(|i| [i, i + 1, i + 2]).collect();
    let data = encode_bmp(5, 3, &pixels).unwrap();
    assert_eq!(data.len(), 54 + 16 * 3);
    assert_eq!(decode_bmp(&data).unwrap(), (5, 3, pixels));
}
