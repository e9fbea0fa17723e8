use snapocr_shot::encode::{encode_png, EncodeError};
use snapocr_shot::image::Shot;

#[test]
fn encode_png_round_trips() {
    let shot = Shot { width: 2, height: 1, pixels: vec![1, 2, 3, 4, 250, 251, 252, 253] };
    let bytes = encode_png(&shot).unwrap();
    assert_eq!(&bytes[..8], &[137, 80, 78, 71, 13, 10, 26, 10]);
    assert_eq!(&bytes[8..16], &[0, 0, 0, 13, 73, 72, 68, 82]);
    assert_eq!(&bytes[16..24], &[0, 0, 0, 2, 0, 0, 0, 1]);
    assert_eq!(&bytes[24..29], &[8, 6, 0, 0, 0]);
    let decoder = png::Decoder::new(std::io::Cursor::new(bytes));
    let mut reader = decoder.read_info().unwrap();
    let mut buf = vec![0u8; reader.output_buffer_size().unwrap()];
    let info = reader.next_frame(&mut buf).unwrap();
    assert_eq!((info.width, info.height), (2, 1));
    assert_eq!(&buf[..info.buffer_size()], &shot.pixels[..]);
}

#[test]
fn encode_png_refuses_empty_images() {
    let shot = Shot { width: 0, height: 3, pixels: vec![] };
    assert_eq!(encode_png(&shot), Err(EncodeError::Format));
    let shot = Shot { width: 3, height: 0, pixels: vec![] };
    assert_eq!(encode_png(&shot), Err(EncodeError::Format));
}
