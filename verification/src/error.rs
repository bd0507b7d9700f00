//! The error type shared by all codecs.

use vstd::prelude::*;

verus! {

/// Why a codec call failed.  Every failure is terminal: a decode either
/// produces exactly the declared number of bytes or reports one of these.
#[derive(Clone, Copy, Debug, PartialEq, Eq, Structural)]
pub enum CompressionError {
    /// A header or stream type byte does not match the expected format, or a
    /// size constraint of the format (such as evenness for 16-bit streams) is
    /// violated.
    InvalidFormat,
    /// A run, backreference or tree offset would read or write past a declared
    /// limit.
    OutOfBounds,
    /// The input ended before the declared amount of data was reached.
    Truncated,
    /// The operation has no implementation (Huffman compression).
    Unimplemented,
}

/// The mathematical view of a codec result: the produced bytes as a sequence,
/// or the error unchanged.
pub open spec fn result_view(r: Result<Vec<u8>, CompressionError>) -> Result<
    Seq<u8>,
    CompressionError,
> {
    match r {
        Ok(v) => Ok(v@),
        Err(e) => Err(e),
    }
}

} // verus!
