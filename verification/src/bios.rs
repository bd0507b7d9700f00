//! The codecs understood by the BIOS decompression routines, and the shared
//! stream-header convention.
//!
//! Every BIOS stream opens with one byte whose high nibble selects the codec
//! and whose low nibble is a codec-specific parameter, followed by the 24-bit
//! little-endian decompressed size.

pub mod diff;
pub mod diff_filter;
pub mod huffman;
pub mod lz77;
pub mod rle;

pub use self::diff::{filter_diff16, filter_diff8, unfilter_diff, unfilter_diff16, unfilter_diff8};
pub use self::diff_filter::{Diff16Filter, Diff8Filter};
pub use self::huffman::{compress_huffman, decompress_huffman, HuffmanCompressor};
pub use self::lz77::{compress_lz77, decompress_lz77};
pub use self::rle::{compress_rle, decompress_rle, RleCompressor};

use vstd::prelude::*;

use crate::bytes::{lemma_u24_le_bytes_value, push_u24_le, u24_le_at, u24_le_bytes};
use crate::error::CompressionError;

verus! {

/// The compression type stored in the high nibble of a BIOS stream header.
#[derive(Clone, Copy, Debug, PartialEq, Eq, Structural)]
pub enum BiosCompressionType {
    Lz77,
    Huffman,
    Rle,
    DiffFilter,
}

/// The compression type encoded by the high nibble of `value`, if any:
/// 1 selects LZ77, 2 Huffman, 3 run-length encoding and 8 the diff filter.
pub open spec fn bios_compression_type_spec(value: u8) -> Option<BiosCompressionType> {
    if value >> 4 == 1 {
        Some(BiosCompressionType::Lz77)
    } else if value >> 4 == 2 {
        Some(BiosCompressionType::Huffman)
    } else if value >> 4 == 3 {
        Some(BiosCompressionType::Rle)
    } else if value >> 4 == 8 {
        Some(BiosCompressionType::DiffFilter)
    } else {
        None
    }
}

/// Decodes the compression type from the high nibble of a header byte.
pub fn bios_compression_type(value: u8) -> (r: Option<BiosCompressionType>)
    ensures
        r == bios_compression_type_spec(value),
{
    let nibble = value >> 4;
    if nibble == 1 {
        Some(BiosCompressionType::Lz77)
    } else if nibble == 2 {
        Some(BiosCompressionType::Huffman)
    } else if nibble == 3 {
        Some(BiosCompressionType::Rle)
    } else if nibble == 8 {
        Some(BiosCompressionType::DiffFilter)
    } else {
        None
    }
}


/// The high-nibble value that encodes a compression type.
pub open spec fn bios_type_nibble(t: BiosCompressionType) -> u8 {
    match t {
        BiosCompressionType::Lz77 => 1,
        BiosCompressionType::Huffman => 2,
        BiosCompressionType::Rle => 3,
        BiosCompressionType::DiffFilter => 8,
    }
}

/// What reading a stream header yields: the compression type from the high
/// nibble, the parameter nibble, and the 24-bit little-endian decompressed
/// size.  A buffer of fewer than 4 bytes or an unknown type nibble is
/// rejected as `InvalidFormat`.
pub open spec fn read_header_spec(buf: Seq<u8>) -> Result<
    (BiosCompressionType, u8, u32),
    CompressionError,
> {
    if buf.len() < 4 {
        Err(CompressionError::InvalidFormat)
    } else {
        match bios_compression_type_spec(buf[0]) {
            None => Err(CompressionError::InvalidFormat),
            Some(t) => Ok((t, buf[0] & 0xF, u24_le_at(buf, 1) as u32)),
        }
    }
}

/// Reads the shared stream header: compression type, parameter nibble and
/// declared decompressed size.
pub fn read_header(buf: &[u8]) -> (result: Result<
    (BiosCompressionType, u8, u32),
    CompressionError,
>)
    ensures
        result == read_header_spec(buf@),
{
    if buf.len() < 4 {
        return Err(CompressionError::InvalidFormat);
    }
    match bios_compression_type(buf[0]) {
        None => Err(CompressionError::InvalidFormat),
        Some(t) => Ok((t, buf[0] & 0xF, crate::bytes::read_u24_le(buf, 1))),
    }
}

/// What writing a stream header yields: the type and parameter nibbles
/// packed into one byte, then the size, little-endian in 3 bytes.
pub open spec fn write_header_spec(t: BiosCompressionType, parameter: u8, size: u32) -> Seq<u8>
    recommends
        parameter <= 0xF,
        size <= 0xFFFFFF,
{
    seq![(bios_type_nibble(t) * 16 + parameter) as u8] + u24_le_bytes(size as int)
}

/// Writes the shared stream header for `size` decompressed bytes.
pub fn write_header(t: BiosCompressionType, parameter: u8, size: u32) -> (result: Vec<u8>)
    requires
        parameter <= 0xF,
        size <= 0xFFFFFF,
    ensures
        result@ == write_header_spec(t, parameter, size),
{
    let mut out: Vec<u8> = Vec::new();
    let nibble: u8 = match t {
        BiosCompressionType::Lz77 => 1,
        BiosCompressionType::Huffman => 2,
        BiosCompressionType::Rle => 3,
        BiosCompressionType::DiffFilter => 8,
    };
    out.push(nibble * 16 + parameter);
    push_u24_le(&mut out, size);
    assert(out@ =~= write_header_spec(t, parameter, size));
    out
}

/// Reading back a written header recovers the type, parameter and size.
pub proof fn lemma_header_round_trip(t: BiosCompressionType, parameter: u8, size: u32)
    requires
        parameter <= 0xF,
        size <= 0xFFFFFF,
    ensures
        read_header_spec(write_header_spec(t, parameter, size)) == Ok::<
            (BiosCompressionType, u8, u32),
            CompressionError,
        >((t, parameter, size)),
{
    let header = write_header_spec(t, parameter, size);
    lemma_u24_le_bytes_value(size as int);
    let b0 = (bios_type_nibble(t) * 16 + parameter) as u8;
    assert(header[0] == b0);
    assert(header[1] == u24_le_bytes(size as int)[0]);
    assert(header[2] == u24_le_bytes(size as int)[1]);
    assert(header[3] == u24_le_bytes(size as int)[2]);
    assert(u24_le_at(header, 1) == size);
    let n = bios_type_nibble(t);
    assert((((n * 16 + parameter) as u8) >> 4) == n && (((n * 16 + parameter) as u8) & 0xF)
        == parameter) by (bit_vector)
        requires
            n == 1u8 || n == 2u8 || n == 3u8 || n == 8u8,
            parameter <= 0xFu8,
    ;
    assert(bios_compression_type_spec(b0) == Some(t));
}

} // verus!

