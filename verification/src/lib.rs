//! Codecs for the compression formats understood by the GBA BIOS decompression
//! routines (LZ77, Huffman, run-length encoding and diff filtering), together
//! with a game-specific run-length variant.
//!
//! Every codec works on in-memory byte buffers: `compress` turns raw data into
//! a stream that the hardware routines accept, `decompress` is the exact
//! inverse.  Each public function carries a contract that pins its result down
//! to a specification-level model of the corresponding wire format.

pub mod bios;
pub mod bytes;
pub mod compressor;
pub mod error;
pub mod game_specific;
pub mod utils;

pub use self::compressor::Compressor;
