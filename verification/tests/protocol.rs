use bmp_greyscale::handler::{handle_connection, ConnectionError};
use bmp_greyscale::header::ParseError;

fn make_header(offset: u32, width: i32, height: i32, bpp: u16, compression: u32, colors: u32) -> Vec<u8> {
    let mut h = vec![0u8; 52];
    h[0] = 0x42;
    h[1] = 0x4d;
    h[10..14].copy_from_slice(&offset.to_le_bytes());
    h[18..22].copy_from_slice(&width.to_le_bytes());
    h[22..26].copy_from_slice(&height.to_le_bytes());
    h[28..30].copy_from_slice(&bpp.to_le_bytes());
    h[30..34].copy_from_slice(&compression.to_le_bytes());
    h[46..50].copy_from_slice(&colors.to_le_bytes());
    h
}

#[test]
fn two_by_two_image_turns_grey() {
    // a 2x2, 24-bpp, uncompressed image, every pixel (B,G,R) = (10,20,30);
    // row width 6, so each row carries 2 padding bytes
    let mut input = make_header(52, 2, 2, 24, 0, 0);
    for _ in 0..2 {
        input.extend_from_slice(&[10, 20, 30, 10, 20, 30]);
        input.extend_from_slice(&[0xC0, 0xC1]);
    }
    let out = handle_connection(&input).unwrap();
    let mut expected = make_header(52, 2, 2, 24, 0, 0);
    for _ in 0..2 {
        // floor(0.114*10 + 0.587*20 + 0.299*30) = floor(21.85) = 21
        expected.extend_from_slice(&[21, 21, 21, 21, 21, 21]);
        expected.extend_from_slice(&[0xC0, 0xC1]);
    }
    assert_eq!(out, expected);
}

#[test]
fn header_is_echoed_verbatim_with_remainder() {
    let mut input = make_header(56, 1, 1, 24, 0, 0);
    input.extend_from_slice(&[0xDE, 0xAD, 0xBE, 0xEF]);
    input.extend_from_slice(&[50, 100, 150, 0x7F]);
    let out = handle_connection(&input).unwrap();
    assert_eq!(&out[..56], &input[..56]);
    // floor((114*50 + 587*100 + 299*150) / 1000) = floor(109.25) = 109
    assert_eq!(&out[56..], &[109, 109, 109, 0x7F]);
}

#[test]
fn bad_magic_closes_with_nothing_sent() {
    let mut input = make_header(52, 1, 1, 24, 0, 0);
    input[0] = 0x00;
    input[1] = 0x00;
    assert_eq!(
        handle_connection(&input),
        Err(ConnectionError::HeaderParseError(ParseError::BadMagic))
    );
}

#[test]
fn offset_below_fixed_header_closes_with_nothing_sent() {
    let input = make_header(40, 1, 1, 24, 0, 0);
    assert_eq!(
        handle_connection(&input),
        Err(ConnectionError::HeaderParseError(ParseError::BadOffset))
    );
}

#[test]
fn truncated_header_closes_with_nothing_sent() {
    let input = vec![0x42, 0x4d, 1, 2, 3];
    assert_eq!(
        handle_connection(&input),
        Err(ConnectionError::HeaderParseError(ParseError::TruncatedHeader))
    );
}

#[test]
fn unsupported_bpp_is_rejected_before_any_output() {
    let input = make_header(52, 1, 1, 8, 0, 0);
    assert_eq!(handle_connection(&input), Err(ConnectionError::UnsupportedFormat));
}

#[test]
fn compressed_image_is_rejected_before_any_output() {
    let input = make_header(52, 1, 1, 24, 3, 0);
    assert_eq!(handle_connection(&input), Err(ConnectionError::UnsupportedFormat));
}

#[test]
fn palette_is_rejected_before_any_output() {
    let input = make_header(52, 1, 1, 24, 0, 256);
    assert_eq!(handle_connection(&input), Err(ConnectionError::UnsupportedFormat));
}

#[test]
fn trailing_bytes_are_echoed_unchanged() {
    // header + full pixel data + 100 arbitrary extra bytes
    let mut input = make_header(52, 1, 1, 24, 0, 0);
    input.extend_from_slice(&[10, 20, 30, 0x55]);
    let extra: Vec<u8> = (0..100u8).map(|i| i.wrapping_mul(37)).collect();
    input.extend_from_slice(&extra);
    let out = handle_connection(&input).unwrap();
    assert_eq!(&out[..52], &input[..52]);
    assert_eq!(&out[52..56], &[21, 21, 21, 0x55]);
    assert_eq!(&out[56..], &extra[..]);
}

#[test]
fn missing_pixel_bytes_fail_the_transfer() {
    // the header declares one 1x1 row, but no pixel byte follows
    let input = make_header(52, 1, 1, 24, 0, 0);
    assert_eq!(handle_connection(&input), Err(ConnectionError::IoError));
}

#[test]
fn negative_height_means_zero_rows() {
    let mut input = make_header(52, 1, -3, 24, 0, 0);
    input.extend_from_slice(&[1, 2, 3]);
    let out = handle_connection(&input).unwrap();
    let mut expected = make_header(52, 1, -3, 24, 0, 0);
    expected.extend_from_slice(&[1, 2, 3]);
    assert_eq!(out, expected);
}

#[test]
fn negative_width_fails_the_transfer() {
    let input = make_header(52, -1, 1, 24, 0, 0);
    assert_eq!(handle_connection(&input), Err(ConnectionError::IoError));
}

#[test]
fn response_is_as_long_as_the_input() {
    let mut input = make_header(52, 1, 2, 24, 0, 0);
    input.extend_from_slice(&[1, 2, 3, 0, 4, 5, 6, 0]);
    input.extend_from_slice(&[0xFF; 17]);
    let out = handle_connection(&input).unwrap();
    assert_eq!(out.len(), input.len());
}

#[test]
fn zero_height_means_zero_rows() {
    let mut input = make_header(52, 4, 0, 24, 0, 0);
    input.extend_from_slice(&[100, 101]);
    let out = handle_connection(&input).unwrap();
    assert_eq!(out, input);
}

#[test]
fn zero_width_rows_carry_no_bytes() {
    // width 0: rows are empty, padding is 0, everything after the header is tail
    let mut input = make_header(52, 0, 3, 24, 0, 0);
    input.extend_from_slice(&[42, 43]);
    let out = handle_connection(&input).unwrap();
    assert_eq!(out, input);
}

#[test]
fn transcoding_twice_is_transcoding_once() {
    let mut input = make_header(52, 2, 3, 24, 0, 0);
    let mut v: u8 = 11;
    for _ in 0..3 {
        for _ in 0..6 {
            input.push(v);
            v = v.wrapping_mul(31).wrapping_add(7);
        }
        input.extend_from_slice(&[0xE0, 0xE1]);
    }
    let once = handle_connection(&input).unwrap();
    let twice = handle_connection(&once).unwrap();
    assert_eq!(twice, once);
}
