//! The two-operation interface every codec offers.

use vstd::prelude::*;

use crate::error::CompressionError;

verus! {

/// A codec over raw byte buffers: `compress` produces a stream the matching
/// `decompress` turns back into the original bytes.  Inputs to `compress`
/// must fit the formats' 24-bit size field.
pub trait Compressor {
    /// Compresses a byte buffer into a self-describing stream.
    fn compress(&self, input: &[u8]) -> (result: Result<Vec<u8>, CompressionError>)
        requires
            input@.len() < 0x1000000,
    ;

    /// Decompresses a stream produced by this codec.
    fn decompress(&self, input: &[u8]) -> (result: Result<Vec<u8>, CompressionError>);
}

} // verus!
