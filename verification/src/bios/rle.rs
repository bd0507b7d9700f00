//! The BIOS run-length codec.
//!
//! A stream is the shared header (type 3, parameter 0, 24-bit size) followed
//! by control-byte-prefixed runs.  A control byte with the high bit clear
//! announces `(control & 0x7F) + 1` raw bytes; with the high bit set it
//! announces `(control & 0x7F) + 3` copies of the single byte that follows.
//! Decoding ends exactly when the declared size has been produced.

use vstd::prelude::*;

use crate::bios::{bios_compression_type, bios_compression_type_spec, BiosCompressionType};
use crate::compressor::Compressor;
use crate::bytes::{lemma_concat_suffix, lemma_u24_le_bytes_value, push_u24_le, u24_le_at, u24_le_bytes};
use crate::error::{result_view, CompressionError};
use crate::utils::{
    consecutive_count_from,
    lemma_nonrep_len_props,
    lemma_run_len_mono,
    lemma_run_len_props,
    non_consecutive_count_from,
    nonrep_len,
    run_len,
};

verus! {

/// Decodes the run section of an RLE stream: `pos` is the next control byte,
/// `out` what has been produced so far, `size` the declared output size.
pub open spec fn rle_decode_runs(
    input: Seq<u8>,
    pos: int,
    out: Seq<u8>,
    size: int,
) -> Result<Seq<u8>, CompressionError>
    decreases size - out.len(),
{
    if out.len() >= size {
        Ok(out)
    } else if pos < 0 || pos >= input.len() {
        Err(CompressionError::Truncated)
    } else {
        let control = input[pos];
        if control < 0x80 {
            let len = control + 1;
            if out.len() + len > size {
                Err(CompressionError::OutOfBounds)
            } else if pos + 1 + len > input.len() {
                Err(CompressionError::Truncated)
            } else {
                rle_decode_runs(input, pos + 1 + len, out + input.subrange(pos + 1, pos + 1 + len), size)
            }
        } else {
            let len = control - 0x80 + 3;
            if out.len() + len > size {
                Err(CompressionError::OutOfBounds)
            } else if pos + 2 > input.len() {
                Err(CompressionError::Truncated)
            } else {
                rle_decode_runs(input, pos + 2, out + Seq::new(len as nat, |k: int| input[pos + 1]), size)
            }
        }
    }
}

/// What decompressing an RLE stream yields: the declared number of bytes, or
/// the error raised by the first malformed element of the stream.
pub open spec fn rle_decompress_spec(input: Seq<u8>) -> Result<Seq<u8>, CompressionError> {
    if input.len() < 1 {
        Err(CompressionError::Truncated)
    } else if bios_compression_type_spec(input[0]) != Some(BiosCompressionType::Rle) {
        Err(CompressionError::InvalidFormat)
    } else if input.len() < 4 {
        Err(CompressionError::Truncated)
    } else {
        rle_decode_runs(input, 4, Seq::empty(), u24_le_at(input, 1))
    }
}

/// The run section the greedy encoder emits for `input[offset..]`: repeat
/// runs for stretches of at least 3 identical bytes (at most 130), literal
/// runs of at most 128 bytes otherwise.
pub open spec fn rle_compress_runs(input: Seq<u8>, offset: int) -> Seq<u8>
    decreases input.len() - offset,
        when 0 <= offset
        via rle_compress_runs_decreases
{
    if offset >= input.len() {
        Seq::empty()
    } else {
        let c = run_len(input, offset, 0x82);
        if c < 3 {
            let l = nonrep_len(input, offset, 0x80, 3);
            seq![(l - 1) as u8] + input.subrange(offset, offset + l) + rle_compress_runs(
                input,
                offset + l,
            )
        } else {
            seq![(0x80 + (c - 3)) as u8, input[offset]] + rle_compress_runs(input, offset + c)
        }
    }
}

#[via_fn]
proof fn rle_compress_runs_decreases(input: Seq<u8>, offset: int) {
    if offset < input.len() {
        let c = run_len(input, offset, 0x82);
        lemma_run_len_props(input, offset, 0x82);
        if c < 3 {
            lemma_rle_literal_run_nonempty(input, offset);
        }
    }
}

/// Under a repeat run shorter than 3, the literal run is non-empty and fits
/// its length byte.
proof fn lemma_rle_literal_run_nonempty(input: Seq<u8>, offset: int)
    requires
        0 <= offset < input.len(),
        run_len(input, offset, 0x82) < 3,
    ensures
        1 <= nonrep_len(input, offset, 0x80, 3) <= 0x80,
        offset + nonrep_len(input, offset, 0x80, 3) <= input.len(),
{
    lemma_run_len_mono(input, offset, 0x80, 0x82);
    lemma_nonrep_len_props(input, offset, 0x80, 3);
    assert(run_len(input, offset, 0x80) < 3);
}

/// What compressing with the RLE codec yields: the header for `input.len()`
/// bytes followed by the greedy run section.
pub open spec fn rle_compress_spec(input: Seq<u8>) -> Seq<u8>
    recommends
        input.len() < 0x1000000,
{
    seq![0x30u8] + u24_le_bytes(input.len() as int) + rle_compress_runs(input, 0)
}

/// Decompresses a BIOS RLE stream.
///
/// Returns exactly the declared number of bytes; fails with `InvalidFormat`
/// on a header whose type is not RLE, `OutOfBounds` on a run that would
/// overshoot the declared size, and `Truncated` when the input ends early.
pub fn decompress_rle(input: &[u8]) -> (result: Result<Vec<u8>, CompressionError>)
    ensures
        result_view(result) == rle_decompress_spec(input@),
{
    if input.len() < 1 {
        return Err(CompressionError::Truncated);
    }
    if bios_compression_type(input[0]) != Some(BiosCompressionType::Rle) {
        return Err(CompressionError::InvalidFormat);
    }
    if input.len() < 4 {
        return Err(CompressionError::Truncated);
    }
    let size = crate::bytes::read_u24_le(input, 1) as usize;
    let ghost target = rle_decode_runs(input@, 4, Seq::empty(), size as int);
    let mut out: Vec<u8> = Vec::new();
    let mut pos: usize = 4;
    while out.len() < size
        invariant
            4 <= pos <= input@.len(),
            out@.len() <= size,
            rle_decode_runs(input@, pos as int, out@, size as int) == target,
            rle_decompress_spec(input@) == target,
        decreases size - out@.len(),
    {
        if pos >= input.len() {
            return Err(CompressionError::Truncated);
        }
        let control = input[pos];
        if control < 0x80 {
            let len = (control as usize) + 1;
            if size - out.len() < len {
                return Err(CompressionError::OutOfBounds);
            }
            if input.len() - pos - 1 < len {
                return Err(CompressionError::Truncated);
            }
            crate::bytes::push_slice_range(&mut out, input, pos + 1, pos + 1 + len);
            pos = pos + 1 + len;
        } else {
            let len = (control as usize - 0x80) + 3;
            if size - out.len() < len {
                return Err(CompressionError::OutOfBounds);
            }
            if input.len() - pos < 2 {
                return Err(CompressionError::Truncated);
            }
            let value = input[pos + 1];
            crate::bytes::push_repeat(&mut out, value, len);
            pos = pos + 2;
        }
    }
    Ok(out)
}

/// Compresses a byte buffer with the BIOS RLE codec.
///
/// The output is the RLE header for `input.len()` bytes followed by the runs
/// the greedy scan chooses; `input.len()` must fit the 24-bit size field.
pub fn compress_rle(input: &[u8]) -> (result: Result<Vec<u8>, CompressionError>)
    requires
        input@.len() < 0x1000000,
    ensures
        result_view(result) == Ok::<Seq<u8>, CompressionError>(rle_compress_spec(input@)),
{
    let mut out: Vec<u8> = Vec::new();
    out.push(0x30);
    push_u24_le(&mut out, input.len() as u32);
    let ghost header = seq![0x30u8] + u24_le_bytes(input@.len() as int);
    assert(out@ =~= header);
    let mut offset: usize = 0;
    while offset < input.len()
        invariant
            0 <= offset <= input@.len(),
            input@.len() < 0x1000000,
            header == seq![0x30u8] + u24_le_bytes(input@.len() as int),
            out@ + rle_compress_runs(input@, offset as int) == header + rle_compress_runs(
                input@,
                0,
            ),
        decreases input@.len() - offset,
    {
        let c = consecutive_count_from(input, offset, 0x82);
        proof {
            lemma_run_len_props(input@, offset as int, 0x82);
        }
        if c < 3 {
            let l = non_consecutive_count_from(input, offset, 0x80, 3);
            proof {
                lemma_rle_literal_run_nonempty(input@, offset as int);
            }
            let ghost out_before = out@;
            out.push((l - 1) as u8);
            crate::bytes::push_slice_range(&mut out, input, offset, offset + l);
            assert(out@ =~= out_before + (seq![(l - 1) as u8] + input@.subrange(
                offset as int,
                offset + l,
            )));
            offset = offset + l;
        } else {
            let ghost out_before = out@;
            out.push(0x80 + (c as u8 - 3));
            out.push(input[offset]);
            assert(out@ =~= out_before + seq![
                (0x80 + (c - 3)) as u8,
                input@[offset as int],
            ]);
            offset = offset + c;
        }
    }
    Ok(out)
}


/// Decoding the run section that the greedy encoder emitted reproduces the
/// remaining input, whatever prefix has already been produced.
proof fn lemma_rle_runs_decode(input: Seq<u8>, offset: int, stream: Seq<u8>, pos: int, out: Seq<u8>)
    requires
        0 <= offset <= input.len(),
        input.len() < 0x1000000,
        0 <= pos <= stream.len(),
        stream.subrange(pos, stream.len() as int) == rle_compress_runs(input, offset),
        out.len() == offset,
    ensures
        rle_decode_runs(stream, pos, out, input.len() as int) == Ok::<Seq<u8>, CompressionError>(
            out + input.subrange(offset, input.len() as int),
        ),
    decreases input.len() - offset,
{
    let size = input.len() as int;
    let tail = stream.subrange(pos, stream.len() as int);
    if offset >= input.len() {
        assert(out + input.subrange(offset, size) =~= out);
    } else {
        let c = run_len(input, offset, 0x82);
        lemma_run_len_props(input, offset, 0x82);
        if c < 3 {
            let l = nonrep_len(input, offset, 0x80, 3);
            lemma_rle_literal_run_nonempty(input, offset);
            let lit = input.subrange(offset, offset + l);
            let chunk = seq![(l - 1) as u8] + lit;
            let rest = rle_compress_runs(input, offset + l);
            assert(tail == chunk + rest);
            lemma_concat_suffix(stream, pos, chunk, rest);
            assert(stream[pos + 0] == chunk[0]);
            assert forall|k: int| 0 <= k < l implies stream.subrange(pos + 1, pos + 1 + l)[k]
                == lit[k] by {
                assert(stream[pos + (1 + k)] == chunk[1 + k]);
            }
            assert(stream.subrange(pos + 1, pos + 1 + l) =~= lit);
            assert(stream.subrange(pos + 1 + l, stream.len() as int) == rest);
            let out2 = out + stream.subrange(pos + 1, pos + 1 + l);
            lemma_rle_runs_decode(input, offset + l, stream, pos + 1 + l, out2);
            assert(out2 + input.subrange(offset + l, size) =~= out + input.subrange(offset, size));
        } else {
            let chunk = seq![(0x80 + (c - 3)) as u8, input[offset]];
            let rest = rle_compress_runs(input, offset + c);
            assert(tail == chunk + rest);
            lemma_concat_suffix(stream, pos, chunk, rest);
            assert(stream[pos + 0] == chunk[0]);
            assert(stream[pos + 1] == chunk[1]);
            assert(stream.subrange(pos + 2, stream.len() as int) == rest);
            let run = Seq::new(c as nat, |k: int| stream[pos + 1]);
            assert forall|k: int| 0 <= k < c implies run[k] == input.subrange(offset, offset + c)[k] by {
                assert(input[offset + k] == input[offset]);
            }
            assert(run =~= input.subrange(offset, offset + c));
            let out2 = out + run;
            lemma_rle_runs_decode(input, offset + c, stream, pos + 2, out2);
            assert(out2 + input.subrange(offset + c, size) =~= out + input.subrange(offset, size));
        }
    }
}

/// Round-trip identity: decompressing a compressed buffer gives the buffer
/// back, for every input that fits the 24-bit size field.
pub proof fn lemma_rle_round_trip(input: Seq<u8>)
    requires
        input.len() < 0x1000000,
    ensures
        rle_decompress_spec(rle_compress_spec(input)) == Ok::<Seq<u8>, CompressionError>(input),
{
    let stream = rle_compress_spec(input);
    let header = seq![0x30u8] + u24_le_bytes(input.len() as int);
    lemma_u24_le_bytes_value(input.len() as int);
    assert(stream[0] == 0x30);
    assert(0x30u8 >> 4 == 3) by (bit_vector);
    assert(stream.len() >= 4);
    assert(stream[1] == u24_le_bytes(input.len() as int)[0]);
    assert(stream[2] == u24_le_bytes(input.len() as int)[1]);
    assert(stream[3] == u24_le_bytes(input.len() as int)[2]);
    assert(u24_le_at(stream, 1) == input.len());
    assert(stream.subrange(4, stream.len() as int) =~= rle_compress_runs(input, 0));
    lemma_rle_runs_decode(input, 0, stream, 4, Seq::empty());
    assert(Seq::<u8>::empty() + input.subrange(0, input.len() as int) =~= input);
}

/// Holds when the stream from `pos` on parses as literal runs only, ending
/// exactly at the end of the stream.
pub open spec fn rle_runs_all_literal(s: Seq<u8>, pos: int) -> bool
    decreases s.len() - pos,
        when 0 <= pos
{
    if pos >= s.len() {
        true
    } else if s[pos] < 0x80 {
        if pos + 2 + s[pos] > s.len() {
            false
        } else {
            rle_runs_all_literal(s, pos + 2 + s[pos])
        }
    } else {
        false
    }
}

proof fn lemma_rle_runs_literal_only(input: Seq<u8>, offset: int, stream: Seq<u8>, pos: int)
    requires
        0 <= offset <= input.len(),
        0 <= pos <= stream.len(),
        stream.subrange(pos, stream.len() as int) == rle_compress_runs(input, offset),
        forall|k: int| offset <= k < input.len() ==> #[trigger] run_len(input, k, 0x82) < 3,
    ensures
        rle_runs_all_literal(stream, pos),
    decreases input.len() - offset,
{
    let tail = stream.subrange(pos, stream.len() as int);
    if offset < input.len() {
        let c = run_len(input, offset, 0x82);
        assert(c < 3);
        let l = nonrep_len(input, offset, 0x80, 3);
        lemma_rle_literal_run_nonempty(input, offset);
        let lit = input.subrange(offset, offset + l);
        let chunk = seq![(l - 1) as u8] + lit;
        let rest = rle_compress_runs(input, offset + l);
        assert(tail == chunk + rest);
        lemma_concat_suffix(stream, pos, chunk, rest);
        assert(stream[pos + 0] == chunk[0]);
        assert(stream.subrange(pos + 1 + l, stream.len() as int) == rest);
        lemma_rle_runs_literal_only(input, offset + l, stream, pos + 1 + l);
        assert(stream[pos] == (l - 1) as u8);
        assert(pos + 2 + stream[pos] == pos + 1 + l);
        assert(rle_runs_all_literal(stream, pos + 1 + l));
    } else {
        assert(tail.len() == 0);
        assert(pos >= stream.len());
    }
}

/// A buffer in which no byte repeats three times in a row compresses to
/// literal runs only.
pub proof fn lemma_rle_no_repeats_all_literal(input: Seq<u8>)
    requires
        input.len() < 0x1000000,
        forall|k: int| 0 <= k < input.len() ==> #[trigger] run_len(input, k, 3) < 3,
    ensures
        rle_runs_all_literal(rle_compress_spec(input), 4),
{
    let stream = rle_compress_spec(input);
    assert forall|k: int| 0 <= k < input.len() implies #[trigger] run_len(input, k, 0x82) < 3 by {
        lemma_run_len_mono(input, k, 3, 0x82);
        lemma_run_len_props(input, k, 0x82);
    }
    assert(stream.subrange(4, stream.len() as int) =~= rle_compress_runs(input, 0));
    lemma_rle_runs_literal_only(input, 0, stream, 4);
}


/// The run-length codec as a `Compressor`.
#[derive(Clone, Copy, Default)]
pub struct RleCompressor;

impl Compressor for RleCompressor {
    fn compress(&self, input: &[u8]) -> (result: Result<Vec<u8>, CompressionError>)
        ensures
            result_view(result) == Ok::<Seq<u8>, CompressionError>(rle_compress_spec(input@)),
    {
        compress_rle(input)
    }

    fn decompress(&self, input: &[u8]) -> (result: Result<Vec<u8>, CompressionError>)
        ensures
            result_view(result) == rle_decompress_spec(input@),
    {
        decompress_rle(input)
    }
}


/// Run legality of the greedy encoder: at every position it emits either a
/// repeat run of 3 to 130 bytes or a literal run of 1 to 128 bytes.
pub proof fn lemma_rle_run_legality(input: Seq<u8>, offset: int)
    requires
        0 <= offset < input.len(),
    ensures
        run_len(input, offset, 0x82) >= 3 ==> 3 <= run_len(input, offset, 0x82) <= 0x82,
        run_len(input, offset, 0x82) < 3 ==> 1 <= nonrep_len(input, offset, 0x80, 3) <= 0x80,
{
    lemma_run_len_props(input, offset, 0x82);
    if run_len(input, offset, 0x82) < 3 {
        lemma_rle_literal_run_nonempty(input, offset);
    }
}

} // verus!



