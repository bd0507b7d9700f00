use gba_compression::bios::{
    compress_rle, decompress_rle, read_header, write_header, BiosCompressionType,
};
use gba_compression::error::CompressionError;

#[test]
fn rle_test_decompress_1() {
    let input: Vec<u8> = vec![
        0x30, 0x08, 0x00, 0x00,
        0x03, 0x01, 0x02, 0x03, 0x04,
        0x81, 0x05,
    ];
    let expected_output: Vec<u8> = vec![
        0x01, 0x02, 0x03, 0x04,
        0x05, 0x05, 0x05, 0x05,
    ];

    let output = decompress_rle(&input).unwrap();
    assert_eq!(output, expected_output);
}

#[test]
fn rle_test_decompress_2() {
    let input: Vec<u8> = vec![
        0x30, 0x04, 0x00, 0x00,
        0x04, 0x01, 0x02, 0x03, 0x04, 0x05,
    ];

    assert!(decompress_rle(&input).is_err());
}

#[test]
fn rle_test_decompress_3() {
    let input: Vec<u8> = vec![
        0x30, 0x04, 0x00, 0x00,
        0x82, 0x01,
    ];

    assert!(decompress_rle(&input).is_err());
}

#[test]
fn rle_test_decompress_4() {
    let input: Vec<u8> = vec![
        0x30, 0x00, 0x00, 0x00,
    ];

    let output = decompress_rle(&input).unwrap();
    assert!(output.is_empty());
}

#[test]
fn rle_test_compress_and_decompress_1() {
    let input: Vec<u8> = Vec::new();

    let immediate = compress_rle(&input).unwrap();
    let output = decompress_rle(&immediate).unwrap();
    assert_eq!(input, output);
}

#[test]
fn rle_test_compress_and_decompress_2() {
    let input: Vec<u8> = vec![
        0x00, 0x00, 0x00, 0x00, 0x00, 0x00, 0x00, 0x00,
        0x01, 0x02, 0x02, 0x02, 0x02, 0x02, 0x02, 0x02,
        0x03, 0x04, 0x05, 0x05, 0x05, 0x05, 0x05, 0x05,
        0x06, 0x07, 0x08, 0x09, 0x09, 0x09, 0x09, 0x09,
    ];

    let immediate = compress_rle(&input).unwrap();
    let output = decompress_rle(&immediate).unwrap();
    assert_eq!(input, output);
}

#[test]
fn rle_test_compress_and_decompress_3() {
    let input: Vec<u8> = vec![0x42; 4096];

    let immediate = compress_rle(&input).unwrap();
    let output = decompress_rle(&immediate).unwrap();
    assert_eq!(input, output);
}

#[test]
fn rle_overlong_literal_run_is_out_of_bounds() {
    let input: Vec<u8> = vec![
        0x30, 0x04, 0x00, 0x00,
        0x04, 0x01, 0x02, 0x03, 0x04, 0x05,
    ];

    assert_eq!(decompress_rle(&input), Err(CompressionError::OutOfBounds));
}

#[test]
fn rle_overlong_repeat_run_is_out_of_bounds() {
    let input: Vec<u8> = vec![
        0x30, 0x04, 0x00, 0x00,
        0x82, 0x01,
    ];

    assert_eq!(decompress_rle(&input), Err(CompressionError::OutOfBounds));
}

#[test]
fn rle_short_run_data_is_truncated() {
    let input: Vec<u8> = vec![
        0x30, 0x05, 0x00, 0x00,
        0x01, 0xAA,
    ];

    assert_eq!(decompress_rle(&input), Err(CompressionError::Truncated));
}

#[test]
fn rle_missing_size_is_truncated() {
    assert_eq!(decompress_rle(&[0x30]), Err(CompressionError::Truncated));
    assert_eq!(decompress_rle(&[]), Err(CompressionError::Truncated));
}

#[test]
fn rle_wrong_header_type_is_invalid_format() {
    let input: Vec<u8> = vec![0x99, 0x00, 0x00, 0x00];

    assert_eq!(decompress_rle(&input), Err(CompressionError::InvalidFormat));
}

#[test]
fn rle_compress_exact_streams() {
    let compressed = compress_rle(&[0x01, 0x02, 0x03]).unwrap();
    assert_eq!(compressed, vec![0x30, 0x03, 0x00, 0x00, 0x02, 0x01, 0x02, 0x03]);

    let compressed = compress_rle(&[0x07; 5]).unwrap();
    assert_eq!(compressed, vec![0x30, 0x05, 0x00, 0x00, 0x82, 0x07]);
}

#[test]
fn rle_no_repeats_gives_only_literal_runs() {
    let input: Vec<u8> = vec![0x01, 0x02, 0x03, 0x04, 0x01, 0x01, 0x02, 0x02];

    let compressed = compress_rle(&input).unwrap();
    let mut pos = 4;
    while pos < compressed.len() {
        let control = compressed[pos];
        assert!(control & 0x80 == 0);
        pos += 1 + (control & 0x7F) as usize + 1;
    }
    assert_eq!(decompress_rle(&compressed).unwrap(), input);
}

#[test]
fn header_read_write_round_trip() {
    let header = write_header(BiosCompressionType::Rle, 0, 8);
    assert_eq!(header, vec![0x30, 0x08, 0x00, 0x00]);
    assert_eq!(read_header(&header).unwrap(), (BiosCompressionType::Rle, 0, 8));

    let header = write_header(BiosCompressionType::DiffFilter, 2, 0x123456);
    assert_eq!(header, vec![0x82, 0x56, 0x34, 0x12]);
    assert_eq!(
        read_header(&header).unwrap(),
        (BiosCompressionType::DiffFilter, 2, 0x123456)
    );

    assert!(read_header(&[0x99, 0x00, 0x00, 0x00]).is_err());
    assert!(read_header(&[0x30]).is_err());
}
