use gba_compression::error::CompressionError;
use gba_compression::game_specific::wario_land_4::{
    compress_wl4_rle, compress_wl4_rle16, compress_wl4_rle8, decompress_wl4_rle,
    decompress_wl4_rle16, decompress_wl4_rle8,
};

#[test]
fn wario_land_4_test_decompress_1() {
    let input: Vec<u8> = vec![
        0x01,
        0x04, 0x01, 0x02, 0x03, 0x04,
        0x84, 0x05,
        0x00,
    ];
    let expected_output: Vec<u8> = vec![
        0x01, 0x02, 0x03, 0x04,
        0x05, 0x05, 0x05, 0x05,
    ];

    let output = decompress_wl4_rle8(&input).unwrap();
    assert_eq!(output, expected_output);
}

#[test]
fn wario_land_4_test_decompress_2() {
    let input: Vec<u8> = vec![
        0x02,
        0x00, 0x04, 0x01, 0x02, 0x03, 0x04,
        0x80, 0x04, 0x05,
        0x00, 0x00,
    ];
    let expected_output: Vec<u8> = vec![
        0x01, 0x02, 0x03, 0x04,
        0x05, 0x05, 0x05, 0x05,
    ];

    let output = decompress_wl4_rle16(&input).unwrap();
    assert_eq!(output, expected_output);
}

#[test]
fn wario_land_4_test_decompress_3() {
    let input: Vec<u8> = vec![
        0x01, 0x00,
    ];

    let output = decompress_wl4_rle8(&input).unwrap();
    assert!(output.is_empty());
}

#[test]
fn wario_land_4_test_decompress_4() {
    let input: Vec<u8> = vec![
        0x02, 0x00, 0x00,
    ];

    let output = decompress_wl4_rle16(&input).unwrap();
    assert!(output.is_empty());
}

#[test]
fn wario_land_4_test_compress_and_decompress_1() {
    let input: Vec<u8> = Vec::new();

    let immediate = compress_wl4_rle(&input).unwrap();
    let output = decompress_wl4_rle(&immediate).unwrap();
    assert_eq!(input, output);
}

#[test]
fn wario_land_4_test_compress_and_decompress_2() {
    let input: Vec<u8> = vec![
        0x00, 0x00, 0x00, 0x00, 0x00, 0x00, 0x00, 0x00,
        0x01, 0x02, 0x02, 0x02, 0x02, 0x02, 0x02, 0x02,
        0x03, 0x04, 0x05, 0x05, 0x05, 0x05, 0x05, 0x05,
        0x06, 0x07, 0x08, 0x09, 0x09, 0x09, 0x09, 0x09,
    ];

    let immediate = compress_wl4_rle(&input).unwrap();
    let output = decompress_wl4_rle(&immediate).unwrap();
    assert_eq!(input, output);
}

#[test]
fn wario_land_4_test_compress_and_decompress_3() {
    let input: Vec<u8> = vec![0x42; 4096];

    let immediate = compress_wl4_rle(&input).unwrap();
    let output = decompress_wl4_rle(&immediate).unwrap();
    assert_eq!(input, output);
}

#[test]
fn wario_land_4_rle8_round_trips_alone() {
    let input: Vec<u8> = vec![0x01, 0x01, 0x02, 0x03, 0x03, 0x03, 0x04];

    let immediate = compress_wl4_rle8(&input).unwrap();
    assert_eq!(immediate[0], 0x01);
    let output = decompress_wl4_rle8(&immediate).unwrap();
    assert_eq!(input, output);
}

#[test]
fn wario_land_4_rle16_round_trips_alone() {
    let input: Vec<u8> = vec![0x01, 0x01, 0x02, 0x03, 0x03, 0x03, 0x04];

    let immediate = compress_wl4_rle16(&input).unwrap();
    assert_eq!(immediate[0], 0x02);
    let output = decompress_wl4_rle16(&immediate).unwrap();
    assert_eq!(input, output);
}

#[test]
fn wario_land_4_combined_picks_smaller_serialization() {
    let input: Vec<u8> = vec![0x00, 0x01, 0x02, 0x03];

    let out8 = compress_wl4_rle8(&input).unwrap();
    let out16 = compress_wl4_rle16(&input).unwrap();
    assert!(out8.len() < out16.len());
    assert_eq!(compress_wl4_rle(&input).unwrap(), out8);
}

#[test]
fn wario_land_4_combined_tie_keeps_16_bit_form() {
    let input: Vec<u8> = vec![0xAA; 200];

    let out8 = compress_wl4_rle8(&input).unwrap();
    let out16 = compress_wl4_rle16(&input).unwrap();
    assert_eq!(out8.len(), out16.len());
    assert_eq!(compress_wl4_rle(&input).unwrap(), out16);
    assert_eq!(out16, vec![0x02, 0x80, 0xC8, 0xAA, 0x00, 0x00]);
}

#[test]
fn wario_land_4_wrong_type_byte_is_invalid_format() {
    assert_eq!(decompress_wl4_rle8(&[0x02, 0x00]), Err(CompressionError::InvalidFormat));
    assert_eq!(decompress_wl4_rle16(&[0x01, 0x00]), Err(CompressionError::InvalidFormat));
    assert_eq!(decompress_wl4_rle(&[0x03]), Err(CompressionError::InvalidFormat));
}

#[test]
fn wario_land_4_missing_terminator_is_truncated() {
    assert_eq!(decompress_wl4_rle8(&[0x01]), Err(CompressionError::Truncated));
    assert_eq!(decompress_wl4_rle8(&[0x01, 0x82, 0xAA]), Err(CompressionError::Truncated));
    assert_eq!(decompress_wl4_rle16(&[0x02, 0x00]), Err(CompressionError::Truncated));
    assert_eq!(decompress_wl4_rle(&[]), Err(CompressionError::Truncated));
}
