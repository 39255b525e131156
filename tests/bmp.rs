use minirt::bmp::{BmpError, MinirtBmp, MinirtBmpPixel};

fn gradient(x: usize, y: usize) -> MinirtBmpPixel {
    MinirtBmpPixel { r: (x * 10) as u8, g: (y * 10) as u8, b: 200 }
}

#[test]
fn serialize_writes_header_and_padded_rows() {
    let bmp = MinirtBmp::new(1, 2, gradient);
    let bytes = bmp.serialize().unwrap();
    // rows of 3 bytes padded to 4, two rows
    assert_eq!(bytes.len(), 54 + 8);
    assert_eq!(&bytes[0..2], b"BM");
    assert_eq!(&bytes[2..6], &62u32.to_le_bytes());
    assert_eq!(&bytes[10..14], &54u32.to_le_bytes());
    assert_eq!(&bytes[14..18], &40u32.to_le_bytes());
    assert_eq!(&bytes[18..22], &1u32.to_le_bytes());
    assert_eq!(&bytes[22..26], &2u32.to_le_bytes());
    assert_eq!(&bytes[26..28], &1u16.to_le_bytes());
    assert_eq!(&bytes[28..30], &24u16.to_le_bytes());
    assert_eq!(&bytes[34..38], &8u32.to_le_bytes());
    assert_eq!(&bytes[46..50], &24u32.to_le_bytes());
    // bottom row (y = 1) first, blue green red, then one byte of padding
    assert_eq!(&bytes[54..58], &[200, 10, 0, 0]);
    assert_eq!(&bytes[58..62], &[200, 0, 0, 0]);
}

#[test]
fn serialize_then_deserialize_gives_the_image_back() {
    let bmp = MinirtBmp::new(5, 3, gradient);
    let bytes = bmp.serialize().unwrap();
    assert_eq!(bytes.len(), 54 + 16 * 3);
    let back = MinirtBmp::deserialize(&bytes).unwrap();
    assert_eq!(back, bmp);
    assert_eq!(back.serialize().unwrap(), bytes);
}

#[test]
fn deserialize_rejects_a_bad_magic_or_a_short_buffer() {
    let mut bytes = MinirtBmp::new(2, 2, gradient).serialize().unwrap();
    assert_eq!(MinirtBmp::deserialize(&bytes[0..54]), Err(BmpError::InvalidFormat));
    bytes[0] = b'X';
    assert_eq!(MinirtBmp::deserialize(&bytes), Err(BmpError::InvalidFormat));
}

#[test]
fn deserialize_rejects_missing_rows() {
    let bytes = MinirtBmp::new(2, 2, gradient).serialize().unwrap();
    // two rows of 8 bytes; the last row needs 6 of its bytes
    assert_eq!(MinirtBmp::deserialize(&bytes[0..54 + 13]), Err(BmpError::InvalidSize));
    assert!(MinirtBmp::deserialize(&bytes[0..54 + 14]).is_ok());
}

#[test]
fn deserialize_takes_the_magnitude_of_a_negative_height() {
    let mut bytes = MinirtBmp::new(1, 1, gradient).serialize().unwrap();
    bytes[22..26].copy_from_slice(&(-1i32).to_le_bytes());
    let back = MinirtBmp::deserialize(&bytes).unwrap();
    assert_eq!(back, MinirtBmp::new(1, 1, gradient));
}

#[test]
fn empty_image_serializes_to_a_bare_header() {
    let bytes = MinirtBmp::new(0, 0, gradient).serialize().unwrap();
    assert_eq!(bytes.len(), 54);
    assert_eq!(MinirtBmp::deserialize(&bytes), Err(BmpError::InvalidFormat));
}

#[test]
fn getters_read_dimensions_and_pixels() {
    let bmp = MinirtBmp::new(3, 2, gradient);
    assert_eq!(bmp.width(), 3);
    assert_eq!(bmp.height(), 2);
    assert_eq!(bmp.get(2, 1), MinirtBmpPixel { r: 20, g: 10, b: 200 });
}

#[test]
fn an_image_without_rows_keeps_a_width_beyond_i32() {
    let bmp = MinirtBmp::new(3_000_000_000, 0, gradient);
    let bytes = bmp.serialize().unwrap();
    assert_eq!(bytes.len(), 54);
    assert_eq!(&bytes[18..22], &3_000_000_000u32.to_le_bytes());
    assert_eq!(&bytes[22..26], &0u32.to_le_bytes());
    assert_eq!(&bytes[34..38], &0u32.to_le_bytes());
}
