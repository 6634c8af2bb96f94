use raytracer::ppm::{channel, encode, push_header, push_number, push_pixel, MAX_CHANNEL};

#[test]
fn channel_clamps_at_both_ends() {
    assert_eq!(channel(-1), 0);
    assert_eq!(channel(i64::MIN), 0);
    assert_eq!(channel(0), 0);
    assert_eq!(channel(1), 1);
    assert_eq!(channel(128), 128);
    assert_eq!(channel(254), 254);
    assert_eq!(channel(255), 255);
    assert_eq!(channel(256), 255);
    assert_eq!(channel(i64::MAX), MAX_CHANNEL);
}

#[test]
fn numbers_are_written_in_decimal() {
    for (n, text) in [
        (0usize, "0"),
        (7, "7"),
        (9, "9"),
        (10, "10"),
        (99, "99"),
        (100, "100"),
        (255, "255"),
        (2000, "2000"),
        (1234567890, "1234567890"),
    ] {
        let mut out = Vec::new();
        push_number(&mut out, n);
        assert_eq!(out, text.as_bytes());
    }
    let mut out = Vec::new();
    push_number(&mut out, usize::MAX);
    assert_eq!(String::from_utf8(out).unwrap(), format!("{}", usize::MAX));
}

#[test]
fn numbers_are_appended_to_what_is_there() {
    let mut out = b"n=".to_vec();
    push_number(&mut out, 42);
    push_number(&mut out, 0);
    assert_eq!(out, b"n=420");
}

#[test]
fn header_names_magic_size_and_depth() {
    let mut out = Vec::new();
    push_header(&mut out, 2000, 1000);
    assert_eq!(out, b"P3\n2000 1000\n255\n");
    let mut out = Vec::new();
    push_header(&mut out, 0, 0);
    assert_eq!(out, b"P3\n0 0\n255\n");
}

#[test]
fn pixel_line_has_three_numbers() {
    let mut out = Vec::new();
    push_pixel(&mut out, 0, 17, 255);
    assert_eq!(out, b"0 17 255\n");
}

#[test]
fn encode_writes_header_and_one_line_per_pixel() {
    let pixels = [255u8, 0, 0, 0, 128, 0, 1, 2, 3, 10, 100, 200];
    let text = encode(2, 2, &pixels).unwrap();
    assert_eq!(
        String::from_utf8(text).unwrap(),
        "P3\n2 2\n255\n255 0 0\n0 128 0\n1 2 3\n10 100 200\n"
    );
}

#[test]
fn encode_of_an_empty_image_is_the_header() {
    assert_eq!(encode(0, 5, &[]).unwrap(), b"P3\n0 5\n255\n");
    assert_eq!(encode(0, 0, &[]).unwrap(), b"P3\n0 0\n255\n");
}

#[test]
fn encode_refuses_a_buffer_of_the_wrong_length() {
    assert_eq!(encode(2, 2, &[0u8; 11]), None);
    assert_eq!(encode(2, 2, &[0u8; 9]), None);
    assert_eq!(encode(2, 2, &[0u8; 15]), None);
    assert_eq!(encode(1, 1, &[]), None);
    assert_eq!(encode(usize::MAX, usize::MAX, &[0u8; 3]), None);
    assert_eq!(encode(usize::MAX / 2, 3, &[0u8; 3]), None);
}
