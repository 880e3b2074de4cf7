use ppm::{decode_binary, decode_text, encode_text, read_header, DecodeError, Image, Pixel};

fn sample_image() -> Image {
    let p1: Pixel = Pixel::new(120, 30, 180);
    let p2: Pixel = Pixel::new(120, 3, 180);
    let mut pixels: Vec<Pixel> = Vec::new();
    pixels.push(p1);
    pixels.push(p2);
    Image::new(String::from("P3"), 2, 1, 255, pixels)
}

#[test]
fn test_invert_image() {
    let p1: Pixel = Pixel::new(120, 30, 180);
    let p2: Pixel = Pixel::new(120, 3, 180);
    let mut pixels: Vec<Pixel> = Vec::new();
    pixels.push(p1);
    pixels.push(p2);
    let im: Image = Image::new(String::from("P3"), 2, 1, 255, pixels);
    let inv_im = im.invert();
    assert!(im != inv_im);
}

#[test]
fn test_grayscale_image() {
    let p1: Pixel = Pixel::new(120, 30, 180);
    let p2: Pixel = Pixel::new(120, 3, 180);
    let mut pixels: Vec<Pixel> = Vec::new();
    pixels.push(p1);
    pixels.push(p2);
    let im: Image = Image::new(String::from("P3"), 2, 1, 255, pixels);
    let gray_im = im.gray_scale();
    assert!(im != gray_im);
}

#[test]
fn test_save_and_load() {
    let p1: Pixel = Pixel::new(120, 30, 180);
    let p2: Pixel = Pixel::new(120, 3, 180);
    let mut pixels: Vec<Pixel> = Vec::new();
    pixels.push(p1);
    pixels.push(p2);
    let im: Image = Image::new(String::from("P3"), 2, 1, 255, pixels);
    let saved = encode_text(&im);
    let im_loaded = decode_text(&saved).unwrap();
    assert!(im == im_loaded);
}

#[test]
fn test_encode_text_exact() {
    let text = encode_text(&sample_image());
    assert_eq!(text, b"P3\n2 1\n255\n120 30 180\n120 3 180".to_vec());
}

#[test]
fn test_encode_rows_and_columns() {
    let pixels = vec![
        Pixel::new(1, 2, 3),
        Pixel::new(4, 5, 6),
        Pixel::new(7, 8, 9),
        Pixel::new(10, 11, 12),
        Pixel::new(0, 100, 255),
        Pixel::new(13, 14, 15),
    ];
    let image = Image::new(String::from("P3"), 2, 3, 255, pixels.clone());
    let text = encode_text(&image);
    assert_eq!(text, b"P3\n2 3\n255\n1 2 3 4 5 6 7 8 9\n10 11 12 0 100 255 13 14 15".to_vec());
    let back = decode_text(&text).unwrap();
    assert_eq!(back.height(), 2);
    assert_eq!(back.width(), 3);
    assert_eq!(back.max_color(), 255);
    assert_eq!(back.magic(), "P3");
    assert_eq!(back.pixels(), pixels);
}

#[test]
fn test_encode_empty_image() {
    let image = Image::new(String::from("P3"), 0, 0, 255, Vec::new());
    let text = encode_text(&image);
    assert_eq!(text, b"P3\n0 0\n255\n".to_vec());
    let back = decode_text(&text).unwrap();
    assert_eq!(back.pixels(), Vec::new());
}

#[test]
fn test_image_accessors() {
    let image = sample_image();
    assert_eq!(image.magic(), "P3");
    assert_eq!(image.height(), 2);
    assert_eq!(image.width(), 1);
    assert_eq!(image.max_color(), 255);
    assert_eq!(image.raster().to_vec(), vec![Pixel::new(120, 30, 180), Pixel::new(120, 3, 180)]);
    assert_eq!(image.pixels(), vec![Pixel::new(120, 30, 180), Pixel::new(120, 3, 180)]);
}

#[test]
fn test_image_clone_and_eq() {
    let image = sample_image();
    let copy = image.clone();
    assert!(image == copy);
    assert_eq!(copy.magic(), "P3");
    assert_eq!(copy.height(), 2);
    // Images of different lengths differ.
    let shorter = Image::new(String::from("P3"), 1, 1, 255, vec![Pixel::new(120, 30, 180)]);
    assert!(image != shorter);
    assert!(shorter != image);
    // The header takes no part in the comparison.
    let other_header = Image::new(String::from("P6"), 1, 2, 65535, sample_image().pixels());
    assert!(image == other_header);
}

#[test]
fn test_invert_image_values() {
    let inv = sample_image().invert();
    assert_eq!(inv.magic(), "P3");
    assert_eq!(inv.height(), 2);
    assert_eq!(inv.width(), 1);
    assert_eq!(inv.max_color(), 255);
    assert_eq!(inv.pixels(), vec![Pixel::new(135, 225, 75), Pixel::new(135, 252, 75)]);
}

#[test]
fn test_invert_image_twice() {
    let image = sample_image();
    let twice = image.invert().invert();
    assert!(twice == image);
    assert_eq!(twice.pixels(), image.pixels());
}

#[test]
fn test_grayscale_image_values() {
    let gray = sample_image().gray_scale();
    assert_eq!(gray.magic(), "P3");
    assert_eq!(gray.height(), 2);
    assert_eq!(gray.width(), 1);
    assert_eq!(gray.max_color(), 255);
    // 40 + 10 + 60 and 40 + 1 + 60.
    assert_eq!(gray.pixels(), vec![Pixel::new(110, 110, 110), Pixel::new(101, 101, 101)]);
}

#[test]
fn test_grayscale_image_twice() {
    let image = Image::new(String::from("P3"), 1, 2, 255, vec![Pixel::new(120, 150, 200), Pixel::new(9, 9, 9)]);
    let once = image.gray_scale();
    let twice = once.gray_scale();
    assert!(once == twice);
    // 110 and 101 leave a remainder: the second conversion rounds them down.
    let gray = sample_image().gray_scale();
    assert_eq!(gray.gray_scale().pixels(), vec![Pixel::new(108, 108, 108), Pixel::new(99, 99, 99)]);
}

#[test]
fn test_decode_text_plain() {
    let image = decode_text(b"P3\n2 1\n255\n120 30 180\n120 3 180").unwrap();
    assert_eq!(image.magic(), "P3");
    assert_eq!(image.height(), 2);
    assert_eq!(image.width(), 1);
    assert_eq!(image.max_color(), 255);
    assert_eq!(image.pixels(), vec![Pixel::new(120, 30, 180), Pixel::new(120, 3, 180)]);
}

#[test]
fn test_decode_text_height_comes_first() {
    let image = decode_text(b"P3\n1 2\n255\n1 2 3 4 5 6\n").unwrap();
    assert_eq!(image.height(), 1);
    assert_eq!(image.width(), 2);
    assert_eq!(image.pixels(), vec![Pixel::new(1, 2, 3), Pixel::new(4, 5, 6)]);
}

#[test]
fn test_decode_text_trailing_blank_lines() {
    let image = decode_text(b"P3\n2 1\n255\n120 30 180\n\n120 3 180\n\n  \n\n").unwrap();
    assert_eq!(image.pixels(), vec![Pixel::new(120, 30, 180), Pixel::new(120, 3, 180)]);
}

#[test]
fn test_decode_text_whitespace_and_signs() {
    let image = decode_text(b"P3\n 1\t +2 7 \n255\n\t+1  002 3\r\n 4 5 6 \n").unwrap();
    assert_eq!(image.height(), 1);
    assert_eq!(image.width(), 2);
    assert_eq!(image.pixels(), vec![Pixel::new(1, 2, 3), Pixel::new(4, 5, 6)]);
}

#[test]
fn test_decode_text_drops_partial_triplet() {
    // The fourth and fifth token of the first line belong to no pixel.
    let image = decode_text(b"P3\n2 1\n255\n1 2 3 4 5\n6 7 8 x\n").unwrap();
    assert_eq!(image.pixels(), vec![Pixel::new(1, 2, 3), Pixel::new(6, 7, 8)]);
}

#[test]
fn test_decode_text_leaves_out_surplus_pixels() {
    let image = decode_text(b"P3\n1 1\n255\n1 2 3\n4 5 6\n").unwrap();
    assert_eq!(image.pixels(), vec![Pixel::new(1, 2, 3)]);
}

#[test]
fn test_decode_text_malformed_header() {
    assert_eq!(decode_text(b"P3\n2 x\n255\n120 30 180\n120 3 180").unwrap_err(), DecodeError::MalformedHeader);
    assert_eq!(decode_text(b"P3\ntwo 1\n255\n1 2 3").unwrap_err(), DecodeError::MalformedHeader);
    assert_eq!(decode_text(b"P3\n2\n255\n1 2 3").unwrap_err(), DecodeError::MalformedHeader);
    assert_eq!(decode_text(b"P3\n1 1 junk\n255\n1 2 3").unwrap_err(), DecodeError::MalformedHeader);
    assert_eq!(decode_text(b"P3\n1 1 7 8 -9\n255\n1 2 3").unwrap_err(), DecodeError::MalformedHeader);
    assert_eq!(decode_text(b"P3\n2 1\nmax\n1 2 3").unwrap_err(), DecodeError::MalformedHeader);
    assert_eq!(decode_text(b"P3\n2 1\n255 \n1 2 3").unwrap_err(), DecodeError::MalformedHeader);
    assert_eq!(decode_text(b"P3\n2 1\n\n1 2 3").unwrap_err(), DecodeError::MalformedHeader);
    assert_eq!(decode_text(b"P3\n-2 1\n255\n1 2 3").unwrap_err(), DecodeError::MalformedHeader);
    assert_eq!(decode_text(b"P3\n+ 1\n255\n1 2 3").unwrap_err(), DecodeError::MalformedHeader);
    assert_eq!(
        decode_text(b"P3\n99999999999999999999999999 1\n255\n1 2 3").unwrap_err(),
        DecodeError::MalformedHeader
    );
}

#[test]
fn test_decode_text_missing_header_lines() {
    assert_eq!(decode_text(b"").unwrap_err(), DecodeError::MalformedHeader);
    assert_eq!(decode_text(b"P3").unwrap_err(), DecodeError::MalformedHeader);
    assert_eq!(decode_text(b"P3\n2 1").unwrap_err(), DecodeError::MalformedHeader);
    assert_eq!(decode_text(b"P3\n2 1\n").unwrap_err(), DecodeError::MalformedHeader);
    let image = decode_text(b"P3\n0 7\n255").unwrap();
    assert_eq!(image.width(), 7);
    assert_eq!(image.pixels(), Vec::new());
}

#[test]
fn test_decode_text_magic_must_be_text() {
    assert_eq!(decode_text(b"\xff\xfe\n0 0\n255\n").unwrap_err(), DecodeError::MalformedHeader);
    let image = decode_text("caf\u{e9}\n0 0\n255\n".as_bytes()).unwrap();
    assert_eq!(image.magic(), "caf\u{e9}");
    assert_eq!(image.magic().chars().count(), 4);
}

#[test]
fn test_decode_text_invalid_sample() {
    assert_eq!(decode_text(b"P3\n1 1\n255\n1 256 3").unwrap_err(), DecodeError::InvalidSample);
    assert_eq!(decode_text(b"P3\n1 1\n255\n1 -2 3").unwrap_err(), DecodeError::InvalidSample);
    assert_eq!(decode_text(b"P3\n1 1\n255\n1 2 red").unwrap_err(), DecodeError::InvalidSample);
    assert_eq!(decode_text(b"P3\n1 1\n255\n1 2 3\n4 5 6.0").unwrap_err(), DecodeError::InvalidSample);
    assert_eq!(decode_text(b"P3\n1 1\n255\n1 2 +").unwrap_err(), DecodeError::InvalidSample);
    // The largest sample and its many spellings are fine.
    let image = decode_text(b"P3\n1 1\n255\n255 0255 +255").unwrap();
    assert_eq!(image.pixels(), vec![Pixel::new(255, 255, 255)]);
}

#[test]
fn test_decode_text_truncated_raster() {
    assert_eq!(decode_text(b"P3\n2 1\n255\n120 30 180\n").unwrap_err(), DecodeError::TruncatedRaster);
    assert_eq!(decode_text(b"P3\n1 1\n255\n").unwrap_err(), DecodeError::TruncatedRaster);
    assert_eq!(decode_text(b"P3\n1 1\n255\n1 2").unwrap_err(), DecodeError::TruncatedRaster);
    // Two pixels are asked for; the tokens of the two lines are not joined.
    assert_eq!(decode_text(b"P3\n2 1\n255\n1 2 3 4\n5 6").unwrap_err(), DecodeError::TruncatedRaster);
    let huge = format!("P3\n{} {}\n255\n1 2 3", usize::MAX, usize::MAX);
    assert_eq!(decode_text(huge.as_bytes()).unwrap_err(), DecodeError::TruncatedRaster);
}

#[test]
fn test_decode_text_header_errors_come_first() {
    assert_eq!(decode_text(b"P3\n1 x\n255\n1 2 bad").unwrap_err(), DecodeError::MalformedHeader);
    assert_eq!(decode_text(b"P3\n5 5\n255\n1 2 bad").unwrap_err(), DecodeError::InvalidSample);
}

#[test]
fn test_decode_binary_plain() {
    let image = decode_binary(b"P6\n2 1\n255\n\x78\x1e\xb4\x78\x03\xb4").unwrap();
    assert_eq!(image.magic(), "P6");
    assert_eq!(image.height(), 2);
    assert_eq!(image.width(), 1);
    assert_eq!(image.max_color(), 255);
    assert_eq!(image.pixels(), vec![Pixel::new(120, 30, 180), Pixel::new(120, 3, 180)]);
}

#[test]
fn test_decode_binary_raster_bytes_are_samples() {
    // Newlines, spaces and digits in the raster are samples like any other byte.
    let image = decode_binary(b"P6\n1 2\n255\n\n\n\n 1\xff extra").unwrap();
    assert_eq!(image.pixels(), vec![Pixel::new(10, 10, 10), Pixel::new(32, 49, 255)]);
}

#[test]
fn test_decode_binary_truncated_raster() {
    assert_eq!(
        decode_binary(b"P6\n2 1\n255\n\x78\x1e\xb4\x78\x03").unwrap_err(),
        DecodeError::TruncatedRaster
    );
    assert_eq!(decode_binary(b"P6\n2 1\n255\n").unwrap_err(), DecodeError::TruncatedRaster);
    assert_eq!(decode_binary(b"P6\n2 1\n255").unwrap_err(), DecodeError::TruncatedRaster);
    let huge = format!("P6\n{} 2\n255\n123", usize::MAX);
    assert_eq!(decode_binary(huge.as_bytes()).unwrap_err(), DecodeError::TruncatedRaster);
}

#[test]
fn test_decode_binary_malformed_header() {
    assert_eq!(decode_binary(b"P6\n2 one\n255\n123456").unwrap_err(), DecodeError::MalformedHeader);
    assert_eq!(decode_binary(b"P6\n2 1").unwrap_err(), DecodeError::MalformedHeader);
    assert_eq!(decode_binary(b"P6\n2 1\n0x10\n123456").unwrap_err(), DecodeError::MalformedHeader);
    assert_eq!(decode_binary(b"\xc3\n2 1\n255\n123456").unwrap_err(), DecodeError::MalformedHeader);
}

#[test]
fn test_read_header() {
    let header = read_header(b"P6\n512 256\n65535\n\x00\x01\x02").unwrap();
    assert_eq!(header.magic, "P6");
    assert_eq!(header.height, 512);
    assert_eq!(header.width, 256);
    assert_eq!(header.max_color, 65535);
    assert_eq!(read_header(b"P6\n512\n255\n").unwrap_err(), DecodeError::MalformedHeader);
    // The header ends with its third line: what follows is not looked at.
    let header = read_header(b"P3\n1 1\n7\nnot a number\n\xff").unwrap();
    assert_eq!(header.max_color, 7);
}

#[test]
fn test_round_trip_keeps_every_field() {
    let pixels = vec![
        Pixel::new(0, 0, 0),
        Pixel::new(255, 255, 255),
        Pixel::new(9, 10, 11),
        Pixel::new(99, 100, 101),
        Pixel::new(199, 200, 201),
        Pixel::new(1, 20, 250),
    ];
    let image = Image::new(String::from("P3"), 3, 2, 65535, pixels.clone());
    let back = decode_text(&encode_text(&image)).unwrap();
    assert!(back == image);
    assert_eq!(back.magic(), "P3");
    assert_eq!(back.height(), 3);
    assert_eq!(back.width(), 2);
    assert_eq!(back.max_color(), 65535);
    assert_eq!(back.pixels(), pixels);
}

#[test]
fn test_round_trip_after_transforms() {
    let image = sample_image();
    let inv = decode_text(&encode_text(&image.invert())).unwrap();
    assert_eq!(inv.pixels(), vec![Pixel::new(135, 225, 75), Pixel::new(135, 252, 75)]);
    let gray = decode_text(&encode_text(&image.gray_scale())).unwrap();
    assert_eq!(gray.pixels(), vec![Pixel::new(110, 110, 110), Pixel::new(101, 101, 101)]);
}

#[test]
fn test_round_trip_needs_a_tag_without_newline() {
    // A newline in the tag moves every header line down by one.
    let image = Image::new(String::from("P3\n7 7"), 1, 1, 255, vec![Pixel::new(1, 2, 3)]);
    let text = encode_text(&image);
    assert_eq!(text, b"P3\n7 7\n1 1\n255\n1 2 3".to_vec());
    assert_eq!(decode_text(&text).unwrap_err(), DecodeError::MalformedHeader);
    // Any other tag comes back, spaces and all.
    let image = Image::new(String::from(" P 3\t"), 1, 1, 255, vec![Pixel::new(1, 2, 3)]);
    let back = decode_text(&encode_text(&image)).unwrap();
    assert_eq!(back.magic(), " P 3\t");
    assert_eq!(back.pixels(), vec![Pixel::new(1, 2, 3)]);
    let image = Image::new(String::new(), 1, 1, 0, vec![Pixel::new(1, 2, 3)]);
    let back = decode_text(&encode_text(&image)).unwrap();
    assert_eq!(back.magic(), "");
    assert_eq!(back.max_color(), 0);
}

#[test]
fn test_round_trip_rows_without_pixels() {
    let image = Image::new(String::from("P3"), 3, 0, 255, Vec::new());
    let text = encode_text(&image);
    assert_eq!(text, b"P3\n3 0\n255\n\n\n".to_vec());
    let back = decode_text(&text).unwrap();
    assert_eq!(back.height(), 3);
    assert_eq!(back.width(), 0);
    assert_eq!(back.pixels(), Vec::new());
}
