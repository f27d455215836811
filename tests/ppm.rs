use libtrace::ppm::{encode_ppm, parse_ppm, ppm_header, write_pixel, write_row, Pixel, PpmError};

fn px(r: u8, g: u8, b: u8) -> Pixel {
    Pixel { r, g, b }
}

#[test]
fn black_pixel_image() {
    let out = encode_ppm(1, 1, &vec![vec![px(0, 0, 0)]]);
    assert_eq!(String::from_utf8(out).unwrap(), "P3\n1 1\n255\n0 0 0 \n");
}

#[test]
fn white_pixel_image() {
    let out = encode_ppm(1, 1, &vec![vec![px(255, 255, 255)]]);
    assert_eq!(String::from_utf8(out).unwrap(), "P3\n1 1\n255\n255 255 255 \n");
}

#[test]
fn round_trip_single_pixels() {
    for p in [px(0, 0, 0), px(255, 255, 255)] {
        let out = encode_ppm(1, 1, &vec![vec![p]]);
        let img = parse_ppm(&out).unwrap();
        assert_eq!((img.wth, img.hgt, img.max), (1, 1, 255));
        assert_eq!(img.samples, vec![p.r as usize, p.g as usize, p.b as usize]);
        let again = encode_ppm(img.wth, img.hgt, &vec![vec![p]]);
        assert_eq!(again, out);
    }
}

#[test]
fn round_trip_two_rows() {
    let rows = vec![vec![px(1, 22, 133), px(9, 10, 99)], vec![px(100, 0, 255), px(7, 70, 200)]];
    let out = encode_ppm(2, 2, &rows);
    assert_eq!(
        String::from_utf8(out.clone()).unwrap(),
        "P3\n2 2\n255\n1 22 133 9 10 99 \n100 0 255 7 70 200 \n"
    );
    let img = parse_ppm(&out).unwrap();
    assert_eq!((img.wth, img.hgt, img.max), (2, 2, 255));
    assert_eq!(img.samples, vec![1, 22, 133, 9, 10, 99, 100, 0, 255, 7, 70, 200]);
}

#[test]
fn header_and_pieces() {
    assert_eq!(ppm_header(200, 10), b"P3\n200 10\n255\n".to_vec());
    let mut v = Vec::new();
    write_pixel(&mut v, px(3, 40, 255));
    assert_eq!(v, b"3 40 255 ".to_vec());
    write_row(&mut v, &[]);
    assert_eq!(v, b"3 40 255 \n".to_vec());
}

#[test]
fn parse_environment_with_any_white_space() {
    let text = b"P3\r\n# 2 1\n";
    assert_eq!(parse_ppm(text).err(), Some(PpmError::Header));
    let text = b"P3\t2 1\n\n 15\n1 2 3\t4 5 6 extra";
    let img = parse_ppm(text).unwrap();
    assert_eq!((img.wth, img.hgt, img.max), (2, 1, 15));
    assert_eq!(img.samples, vec![1, 2, 3, 4, 5, 6]);
}

#[test]
fn parse_errors() {
    assert_eq!(parse_ppm(b"").err(), Some(PpmError::Header));
    assert_eq!(parse_ppm(b"P3 1 1").err(), Some(PpmError::Header));
    assert_eq!(parse_ppm(b"P3 1 x 255 0 0 0").err(), Some(PpmError::Header));
    assert_eq!(parse_ppm(b"P3 1 1 99999999999999999999999 0 0 0").err(), Some(PpmError::Header));
    assert_eq!(parse_ppm(b"P3 1 1 255 0 0").err(), Some(PpmError::Body));
    assert_eq!(parse_ppm(b"P3 1 1 255 0 -1 0").err(), Some(PpmError::Body));
    assert_eq!(parse_ppm(b"P3 99999999999 99999999999 255 0").err(), Some(PpmError::Body));
}

#[test]
fn parse_largest_number() {
    let text = format!("P3 1 1 {} 0 0 {}", usize::MAX, usize::MAX);
    let img = parse_ppm(text.as_bytes()).unwrap();
    assert_eq!(img.max, usize::MAX);
    assert_eq!(img.samples, vec![0, 0, usize::MAX]);
    let text = format!("P3 1 1 1 0 0 {}0", usize::MAX);
    assert_eq!(parse_ppm(text.as_bytes()).err(), Some(PpmError::Body));
}

#[test]
fn empty_image() {
    let out = encode_ppm(0, 0, &vec![]);
    assert_eq!(out, b"P3\n0 0\n255\n".to_vec());
    let img = parse_ppm(&out).unwrap();
    assert!(img.samples.is_empty());
}
