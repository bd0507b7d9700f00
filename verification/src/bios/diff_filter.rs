//! The diff filters behind the common codec interface.

use vstd::prelude::*;

use crate::bios::diff::{
    filter_diff16, filter_diff16_spec, filter_diff8, filter_diff8_spec, unfilter_diff16,
    unfilter_diff16_spec, unfilter_diff8, unfilter_diff8_spec,
};
use crate::compressor::Compressor;
use crate::error::{result_view, CompressionError};

verus! {

/// The 8-bit diff filter as a `Compressor`.
#[derive(Clone, Copy, Default)]
pub struct Diff8Filter;

/// The 16-bit diff filter as a `Compressor`.
#[derive(Clone, Copy, Default)]
pub struct Diff16Filter;

impl Compressor for Diff8Filter {
    fn compress(&self, input: &[u8]) -> (result: Result<Vec<u8>, CompressionError>)
        ensures
            result_view(result) == Ok::<Seq<u8>, CompressionError>(filter_diff8_spec(input@)),
    {
        filter_diff8(input)
    }

    fn decompress(&self, input: &[u8]) -> (result: Result<Vec<u8>, CompressionError>)
        ensures
            result_view(result) == unfilter_diff8_spec(input@),
    {
        unfilter_diff8(input)
    }
}

impl Compressor for Diff16Filter {
    fn compress(&self, input: &[u8]) -> (result: Result<Vec<u8>, CompressionError>)
        ensures
            result_view(result) == filter_diff16_spec(input@),
    {
        filter_diff16(input)
    }

    fn decompress(&self, input: &[u8]) -> (result: Result<Vec<u8>, CompressionError>)
        ensures
            result_view(result) == unfilter_diff16_spec(input@),
    {
        unfilter_diff16(input)
    }
}

} // verus!
