use pathtracer::ppm::{find_byte, parse_number, Image, ImageError, Pixel};

fn px(r: u8, g: u8, b: u8) -> Pixel {
    Pixel { r, g, b }
}

#[test]
fn decodes_binary_file() {
    let mut file = b"P6\n2 1\n255\n".to_vec();
    file.extend_from_slice(&[1, 2, 3, 250, 251, 252]);
    let image = Image::decode(&file).unwrap();
    assert_eq!(image.width, 2);
    assert_eq!(image.height, 1);
    assert_eq!(image.pixels, vec![px(1, 2, 3), px(250, 251, 252)]);
}

#[test]
fn decodes_binary_body_with_line_feeds() {
    let mut file = b"P6\n1 2\n255\n".to_vec();
    file.extend_from_slice(&[10, 10, 10, 32, 10, 0]);
    let image = Image::decode(&file).unwrap();
    assert_eq!(image.pixels, vec![px(10, 10, 10), px(32, 10, 0)]);
}

#[test]
fn decodes_text_file() {
    let file = b"P3\n2 2\n255\n255 0 0\n0 255 0\n0 0 255\n12 34 56\n";
    let image = Image::decode(file).unwrap();
    assert_eq!(image.width, 2);
    assert_eq!(image.height, 2);
    assert_eq!(
        image.pixels,
        vec![px(255, 0, 0), px(0, 255, 0), px(0, 0, 255), px(12, 34, 56)]
    );
}

#[test]
fn text_numbers_may_be_one_per_line() {
    let file = b"P3\n1 1\n255\n7\n8\n9\n";
    assert_eq!(Image::decode(file).unwrap().pixels, vec![px(7, 8, 9)]);
    let file = b"P3\n1 1\n255\n\t007  \r\n8 9";
    assert_eq!(Image::decode(file).unwrap().pixels, vec![px(7, 8, 9)]);
}

#[test]
fn ignores_what_follows_the_pixels() {
    let file = b"P6\n1 1\n255\nabcdef";
    assert_eq!(Image::decode(file).unwrap().pixels, vec![px(97, 98, 99)]);
    let file = b"P3\n1 1\n255\n1 2 3 junk";
    assert_eq!(Image::decode(file).unwrap().pixels, vec![px(1, 2, 3)]);
}

#[test]
fn decodes_empty_image() {
    let image = Image::decode(b"P6\n0 0\n255\n").unwrap();
    assert_eq!((image.width, image.height), (0, 0));
    assert!(image.pixels.is_empty());
    let image = Image::decode(b"P3\n0 5\n255\n").unwrap();
    assert_eq!((image.width, image.height), (0, 5));
    assert!(image.pixels.is_empty());
}

#[test]
fn refuses_truncated_body() {
    assert_eq!(Image::decode(b"P6\n2 1\n255\nabcde"), Err(ImageError::InvalidInput));
    assert_eq!(Image::decode(b"P3\n1 1\n255\n1 2"), Err(ImageError::InvalidInput));
    assert_eq!(Image::decode(b"P3\n1 1\n255\n"), Err(ImageError::InvalidInput));
}

#[test]
fn refuses_malformed_text_body() {
    assert_eq!(Image::decode(b"P3\n1 1\n255\n1 x 3"), Err(ImageError::InvalidInput));
    assert_eq!(Image::decode(b"P3\n1 1\n255\n1 256 3"), Err(ImageError::InvalidInput));
    assert_eq!(Image::decode(b"P3\n1 1\n255\n1 -2 3"), Err(ImageError::InvalidInput));
    assert_eq!(Image::decode(b"P3\n1 1\n255\n1 2.5 3"), Err(ImageError::InvalidInput));
    assert_eq!(
        Image::decode(b"P3\n1 1\n255\n1 99999999999999999999999999 3"),
        Err(ImageError::InvalidInput)
    );
}

#[test]
fn refuses_bad_header() {
    for file in [
        &b""[..],
        b"P6",
        b"P6\n",
        b"P6\n1 1\n",
        b"P6\n1 1\n255",
        b"P5\n1 1\n255\nabc",
        b"P66\n1 1\n255\nabc",
        b"p6\n1 1\n255\nabc",
        b"P\n1 1\n255\nabc",
        b"P6\n1\n255\nabc",
        b"P6\n1  1\n255\nabc",
        b"P6\n1 1 \n255\nabc",
        b"P6\n 1 1\n255\nabc",
        b"P6\n1 x\n255\nabc",
        b"P6\n+1 1\n255\nabc",
        b"P6\n-1 1\n255\nabc",
        b"P6\n1 1\n254\nabc",
        b"P6\n1 1\n256\nabc",
        b"P6\n1 1\n\nabc",
        b"P6\n1 1\n255 \nabc",
        b"P6\n99999999999999999999999999 1\n255\nabc",
    ] {
        assert_eq!(Image::decode(file), Err(ImageError::InvalidInput), "{:?}", file);
    }
}

#[test]
fn refuses_sizes_beyond_the_body() {
    let file = format!("P6\n{} {}\n255\nabc", usize::MAX, usize::MAX);
    assert_eq!(Image::decode(file.as_bytes()), Err(ImageError::InvalidInput));
    let file = format!("P6\n{} 1\n255\nabc", usize::MAX / 2);
    assert_eq!(Image::decode(file.as_bytes()), Err(ImageError::InvalidInput));
    let file = format!("P3\n{} 2\n255\n1 2 3", usize::MAX);
    assert_eq!(Image::decode(file.as_bytes()), Err(ImageError::InvalidInput));
}

#[test]
fn leading_zeros_are_read() {
    let image = Image::decode(b"P6\n001 01\n255\nabc").unwrap();
    assert_eq!((image.width, image.height), (1, 1));
    assert_eq!(Image::decode(b"P6\n1 1\n0255\nabc").unwrap().pixels, vec![px(97, 98, 99)]);
}

#[test]
fn encodes_binary_file() {
    let image = Image { width: 2, height: 1, pixels: vec![px(1, 2, 3), px(10, 255, 0)] };
    let mut expected = b"P6\n2 1\n255\n".to_vec();
    expected.extend_from_slice(&[1, 2, 3, 10, 255, 0]);
    assert_eq!(image.encode(), expected);
}

#[test]
fn encodes_large_sizes_in_decimal() {
    let image = Image { width: 1200, height: 0, pixels: vec![] };
    assert_eq!(image.encode(), b"P6\n1200 0\n255\n".to_vec());
    let image = Image { width: 0, height: 10, pixels: vec![] };
    assert_eq!(image.encode(), b"P6\n0 10\n255\n".to_vec());
}

#[test]
fn encode_then_decode_gives_the_image_back() {
    let mut pixels = Vec::new();
    for i in 0..(7 * 5) {
        pixels.push(px((i * 7) as u8, (255 - i) as u8, (i * 31 % 256) as u8));
    }
    pixels[3] = px(10, 10, 10);
    pixels[4] = px(32, 32, 32);
    let image = Image { width: 7, height: 5, pixels };
    let decoded = Image::decode(&image.encode()).unwrap();
    assert_eq!(decoded, image);
}

#[test]
fn every_channel_value_survives_the_round_trip() {
    let mut pixels = Vec::new();
    for v in 0..=255u8 {
        pixels.push(px(v, 255 - v, v ^ 0x55));
    }
    let image = Image { width: 16, height: 16, pixels };
    assert_eq!(Image::decode(&image.encode()).unwrap(), image);
}

#[test]
fn sample_reads_row_major() {
    let image = Image::decode(b"P3\n2 2\n255\n1 1 1 2 2 2 3 3 3 4 4 4").unwrap();
    assert_eq!(image.sample(0, 0), Some(px(1, 1, 1)));
    assert_eq!(image.sample(1, 0), Some(px(2, 2, 2)));
    assert_eq!(image.sample(0, 1), Some(px(3, 3, 3)));
    assert_eq!(image.sample(1, 1), Some(px(4, 4, 4)));
    assert_eq!(image.sample(0, 2), None);
    assert_eq!(image.sample(2, 1), None);
    assert_eq!(image.sample(2, 0), Some(px(3, 3, 3)));
    assert_eq!(image.sample(usize::MAX, 1), None);
    assert_eq!(image.sample(0, usize::MAX), None);
}

#[test]
fn sample_of_empty_image_is_none() {
    let image = Image { width: 0, height: 0, pixels: vec![] };
    assert_eq!(image.sample(0, 0), None);
}

#[test]
fn read_bodies_directly() {
    assert_eq!(Image::read_p6(1, 1, b"abc").unwrap().pixels, vec![px(97, 98, 99)]);
    assert_eq!(Image::read_p6(1, 2, b"abc"), Err(ImageError::InvalidInput));
    assert_eq!(Image::read_p3(1, 1, b" 1\n2\n3").unwrap().pixels, vec![px(1, 2, 3)]);
    assert_eq!(Image::read_p3(1, 1, b"1 2"), Err(ImageError::InvalidInput));
}

#[test]
fn numbers_and_bytes_are_found() {
    assert_eq!(parse_number(b"a123b", 1, 4, 1000), Some(123));
    assert_eq!(parse_number(b"a123b", 1, 4, 123), Some(123));
    assert_eq!(parse_number(b"a123b", 1, 4, 122), None);
    assert_eq!(parse_number(b"a123b", 1, 5, 1000), None);
    assert_eq!(parse_number(b"a123b", 1, 1, 1000), None);
    assert_eq!(parse_number(b"000", 0, 3, 0), Some(0));
    let max = format!("{}", usize::MAX);
    assert_eq!(parse_number(max.as_bytes(), 0, max.len(), usize::MAX), Some(usize::MAX));
    let over = format!("{}0", usize::MAX);
    assert_eq!(parse_number(over.as_bytes(), 0, over.len(), usize::MAX), None);
    assert_eq!(find_byte(b"ab\ncd\n", 0, 6, 10), 2);
    assert_eq!(find_byte(b"ab\ncd\n", 3, 6, 10), 5);
    assert_eq!(find_byte(b"ab\ncd\n", 3, 5, 10), 5);
    assert_eq!(find_byte(b"abc", 0, 3, 10), 3);
}
