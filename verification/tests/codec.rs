use farbfeld::error::Error;
use farbfeld::image::Image;
use farbfeld::pixel::Pixel;

fn header(width: u32, height: u32) -> Vec<u8> {
    let mut buf: Vec<u8> = Vec::new();
    buf.extend_from_slice(b"farbfeld");
    buf.extend_from_slice(&width.to_be_bytes());
    buf.extend_from_slice(&height.to_be_bytes());
    buf
}

fn push_pixel(buf: &mut Vec<u8>, p: &Pixel) {
    buf.extend_from_slice(&p.r.to_be_bytes());
    buf.extend_from_slice(&p.g.to_be_bytes());
    buf.extend_from_slice(&p.b.to_be_bytes());
    buf.extend_from_slice(&p.a.to_be_bytes());
}

#[test]
fn new_images_are_opaque_black() {
    let img = Image::new(2, 3);
    assert_eq!(img.width, 2);
    assert_eq!(img.height, 3);
    assert_eq!(img.pixels.len(), 6);
    for p in img.pixels.iter() {
        assert_eq!(*p, Pixel { r: 0, g: 0, b: 0, a: 0xFFFF });
    }
}

#[test]
fn encode_empty_image_is_exactly_the_header() {
    let img = Image::new(0, 0);
    let bytes = img.encode();
    assert_eq!(bytes, b"farbfeld\x00\x00\x00\x00\x00\x00\x00\x00".to_vec());
    let back = Image::decode(&bytes).unwrap();
    assert_eq!(back.width, 0);
    assert_eq!(back.height, 0);
    assert!(back.pixels.is_empty());
}

#[test]
fn encode_one_pixel_exact_bytes() {
    let img = Image {
        width: 1,
        height: 1,
        pixels: vec![Pixel { r: 0x1234, g: 0xABCD, b: 0x0001, a: 0xFFFF }],
    };
    let bytes = img.encode();
    let mut expected = header(1, 1);
    expected.extend_from_slice(&[0x12, 0x34, 0xAB, 0xCD, 0x00, 0x01, 0xFF, 0xFF]);
    assert_eq!(bytes, expected);
}

#[test]
fn round_trip_preserves_everything() {
    let pixels = vec![
        Pixel { r: 0, g: 1, b: 2, a: 3 },
        Pixel { r: 65535, g: 0, b: 32768, a: 255 },
        Pixel { r: 256, g: 512, b: 1024, a: 2048 },
        Pixel { r: 0xABCD, g: 0xDCBA, b: 0x00FF, a: 0xFF00 },
        Pixel { r: 7, g: 8, b: 9, a: 10 },
        Pixel { r: 11, g: 12, b: 13, a: 14 },
    ];
    let img = Image { width: 3, height: 2, pixels: pixels.clone() };
    let back = Image::decode(&img.encode()).unwrap();
    assert_eq!(back.width, 3);
    assert_eq!(back.height, 2);
    assert_eq!(back.pixels, pixels);
}

#[test]
fn short_buffer_fails_header_to_short() {
    assert_eq!(Image::decode(&[]).unwrap_err(), Error::HeaderToShort);
    let fifteen = b"farbfeld\x00\x00\x00\x00\x00\x00\x00";
    assert_eq!(Image::decode(fifteen).unwrap_err(), Error::HeaderToShort);
}

#[test]
fn bad_magic_fails_even_when_otherwise_well_formed() {
    let mut buf = header(1, 1);
    buf[0] = b'F';
    push_pixel(&mut buf, &Pixel { r: 1, g: 2, b: 3, a: 4 });
    assert_eq!(Image::decode(&buf).unwrap_err(), Error::FarbfeldPatternNotFound);
}

#[test]
fn truncated_pixel_data_fails_mismatched_length() {
    let mut buf = header(2, 1);
    push_pixel(&mut buf, &Pixel { r: 1, g: 2, b: 3, a: 4 });
    assert_eq!(Image::decode(&buf).unwrap_err(), Error::MismatchedLength);

    // A final incomplete chunk does not count either.
    buf.extend_from_slice(&[0xAA, 0xBB, 0xCC]);
    assert_eq!(Image::decode(&buf).unwrap_err(), Error::MismatchedLength);
}

#[test]
fn trailing_bytes_are_ignored() {
    let mut buf = header(1, 1);
    push_pixel(&mut buf, &Pixel { r: 5, g: 6, b: 7, a: 8 });
    let plain = Image::decode(&buf).unwrap();

    buf.extend_from_slice(&[0xDE, 0xAD, 0xBE, 0xEF, 0x01]);
    let padded = Image::decode(&buf).unwrap();

    assert_eq!(padded.width, plain.width);
    assert_eq!(padded.height, plain.height);
    assert_eq!(padded.pixels, plain.pixels);
    assert_eq!(padded.pixels, vec![Pixel { r: 5, g: 6, b: 7, a: 8 }]);
}
