use gba_compression::bios::{compress_lz77, decompress_lz77};
use gba_compression::error::CompressionError;

#[test]
fn lz77_test_decompress_1() {
    let input: Vec<u8> = vec![
        0x10, 0x10, 0x00, 0x00,
        0x0C,
        0x01, 0x02, 0x03, 0x04,
        0x10, 0x03,
        0x50, 0x07,
    ];
    let expected_output: Vec<u8> = vec![
        0x01, 0x02, 0x03, 0x04,
        0x01, 0x02, 0x03, 0x04,
        0x01, 0x02, 0x03, 0x04,
        0x01, 0x02, 0x03, 0x04,
    ];

    let output = decompress_lz77(&input).unwrap();
    assert_eq!(output, expected_output);
}

#[test]
fn lz77_test_decompress_2() {
    let input: Vec<u8> = vec![
        0x10, 0x00, 0x00, 0x00,
    ];

    let output = decompress_lz77(&input).unwrap();
    assert!(output.is_empty());
}

#[test]
fn lz77_test_compress_1() {
    let input: Vec<u8> = Vec::new();
    let expected_output: Vec<u8> = vec![
        0x10, 0x00, 0x00, 0x00,
    ];

    let output = compress_lz77(&input, false).unwrap();
    assert_eq!(output, expected_output);
}

#[test]
fn lz77_test_compress_and_decompress_1() {
    let input: Vec<u8> = Vec::new();

    let immediate = compress_lz77(&input, false).unwrap();
    let output = decompress_lz77(&immediate).unwrap();
    assert_eq!(input, output);
}

#[test]
fn lz77_test_compress_and_decompress_2() {
    let input: Vec<u8> = vec![
        0x01, 0x02, 0x03, 0x04,
        0x05, 0x05, 0x05, 0x05,
        0x01, 0x02, 0x03, 0x04,
        0x05, 0x05, 0x05, 0x05,
    ];

    let immediate = compress_lz77(&input, false).unwrap();
    let output = decompress_lz77(&immediate).unwrap();
    assert_eq!(input, output);
}

#[test]
fn lz77_test_compress_and_decompress_3() {
    let input: Vec<u8> = vec![0x13; 4096];

    let immediate = compress_lz77(&input, false).unwrap();
    let output = decompress_lz77(&immediate).unwrap();
    assert_eq!(input, output);
}

#[test]
fn lz77_test_compress_and_decompress_4() {
    let input: Vec<u8> = vec![
        0x01, 0x02, 0x03, 0x04,
        0x05, 0x06, 0x07, 0x08,
        0x02, 0x03, 0x01, 0x02,
    ];

    let immediate = compress_lz77(&input, false).unwrap();
    let output = decompress_lz77(&immediate).unwrap();
    assert_eq!(input, output);
}

#[test]
fn test_compress_vram_safe_1() {
    let input: Vec<u8> = vec![0xFF; 16];
    let expected_output: Vec<u8> = vec![
        0x10, 0x10, 0x00, 0x00,
        0x20, 0xFF, 0xFF, 0xB0, 0x01
    ];

    let output = compress_lz77(&input, true).unwrap();
    assert_eq!(output, expected_output);
}

#[test]
fn test_compress_vram_safe_2() {
    let input: Vec<u8> = vec![0xFF; 4096];

    let immediate = compress_lz77(&input, true).unwrap();
    let output = decompress_lz77(&immediate).unwrap();
    assert_eq!(input, output);
}

#[test]
fn lz77_vram_safe_uses_no_offset_one() {
    let input: Vec<u8> = vec![0x5A; 64];

    let compressed = compress_lz77(&input, true).unwrap();
    let mut pos = 4;
    let mut produced = 0usize;
    while produced < input.len() {
        let mask = compressed[pos];
        pos += 1;
        for i in 0..8 {
            if produced >= input.len() {
                break;
            }
            if mask & (0x80 >> i) == 0 {
                pos += 1;
                produced += 1;
            } else {
                let b0 = compressed[pos];
                let b1 = compressed[pos + 1];
                let length = (b0 >> 4) as usize + 3;
                let offset = ((b0 & 0xF) as usize) * 0x100 + b1 as usize + 1;
                assert!(offset >= 2);
                assert!(offset <= 4096);
                assert!(length >= 3 && length <= 18);
                pos += 2;
                produced += length;
            }
        }
    }
    assert_eq!(decompress_lz77(&compressed).unwrap(), input);
}

#[test]
fn lz77_backreference_before_output_start_is_out_of_bounds() {
    let input: Vec<u8> = vec![
        0x10, 0x08, 0x00, 0x00,
        0x80, 0x00, 0x05,
    ];

    assert_eq!(decompress_lz77(&input), Err(CompressionError::OutOfBounds));
}

#[test]
fn lz77_backreference_past_declared_size_is_out_of_bounds() {
    let input: Vec<u8> = vec![
        0x10, 0x02, 0x00, 0x00,
        0x40, 0xAA, 0x00, 0x00,
    ];

    assert_eq!(decompress_lz77(&input), Err(CompressionError::OutOfBounds));
}

#[test]
fn lz77_missing_data_is_truncated() {
    assert_eq!(decompress_lz77(&[0x10, 0x04, 0x00]), Err(CompressionError::Truncated));
    assert_eq!(decompress_lz77(&[0x10, 0x04, 0x00, 0x00]), Err(CompressionError::Truncated));
    assert_eq!(decompress_lz77(&[0x10, 0x04, 0x00, 0x00, 0x00, 0xAA]), Err(CompressionError::Truncated));
}

#[test]
fn lz77_wrong_header_type_is_invalid_format() {
    assert_eq!(decompress_lz77(&[0x30, 0x00, 0x00, 0x00]), Err(CompressionError::InvalidFormat));
}
