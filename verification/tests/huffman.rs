use gba_compression::bios::{compress_huffman, decompress_huffman};
use gba_compression::error::CompressionError;

#[test]
fn huffman_test_decompress_1() {
}

#[test]
fn huffman_test_compress_1() {
}

#[test]
fn huffman_decode_two_leaf_tree() {
    // Tree table: one branch at offset 0 whose children are both leaves at
    // offsets 1 and 2.  Bit stream 0101... decodes to the leaves in
    // alternation.
    let input: Vec<u8> = vec![
        0x28, 0x04, 0x00, 0x00,
        0x01,
        0xC0, 0x41, 0x42,
        0x00, 0x00, 0x00, 0x50,
    ];

    let output = decompress_huffman(&input).unwrap();
    assert_eq!(output, vec![0x41, 0x42, 0x41, 0x42]);
}

#[test]
fn huffman_decode_spans_multiple_words() {
    // The same two-leaf tree, with 33 symbols: the decoder must refill its
    // 32-bit window once.  All bits are zero, so every symbol is leaf 0.
    let mut input: Vec<u8> = vec![
        0x20, 0x21, 0x00, 0x00,
        0x01,
        0xC0, 0x07, 0x08,
    ];
    input.extend_from_slice(&[0x00; 8]);

    let output = decompress_huffman(&input).unwrap();
    assert_eq!(output, vec![0x07; 33]);
}

#[test]
fn huffman_tree_offset_out_of_bounds() {
    // A one-byte table whose branch addresses children far past the table.
    let input: Vec<u8> = vec![
        0x20, 0x01, 0x00, 0x00,
        0x00,
        0x3F,
    ];

    assert_eq!(decompress_huffman(&input), Err(CompressionError::OutOfBounds));
}

#[test]
fn huffman_missing_bit_stream_is_truncated() {
    // A valid tree, but no 32-bit word follows it.
    let input: Vec<u8> = vec![
        0x20, 0x01, 0x00, 0x00,
        0x01,
        0xC0, 0x41, 0x42,
    ];

    assert_eq!(decompress_huffman(&input), Err(CompressionError::Truncated));
}

#[test]
fn huffman_wrong_header_type_is_invalid_format() {
    assert_eq!(decompress_huffman(&[0x10, 0x00, 0x00, 0x00]), Err(CompressionError::InvalidFormat));
}

#[test]
fn huffman_compress_is_unimplemented() {
    assert_eq!(compress_huffman(&[0x01, 0x02]), Err(CompressionError::Unimplemented));
    assert_eq!(compress_huffman(&[]), Err(CompressionError::Unimplemented));
}
