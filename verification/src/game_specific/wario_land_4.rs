//! The Wario Land 4 run-length codec.
//!
//! A stream opens with one type byte (1 for 8-bit, 2 for 16-bit run fields)
//! and then holds length-prefixed runs: a control value with the sign bit
//! clear announces that many raw bytes, with the sign bit set that many
//! copies of the single byte that follows.  A zero control value terminates
//! the stream; there is no leading size field.  The combined encoder tries
//! both run widths and keeps the smaller serialization.

use vstd::prelude::*;

use crate::bytes::{
    lemma_concat_suffix,
    lemma_u16_be_bytes_value,
    push_u16_be,
    read_u16_be,
    u16_be_at,
    u16_be_bytes,
};
use crate::error::{result_view, CompressionError};
use crate::utils::{
    consecutive_count_from,
    lemma_nonrep_len_props,
    lemma_run_len_props,
    non_consecutive_count_from,
    nonrep_len,
    run_len,
};

verus! {

/// Decodes the run section of an 8-bit stream from `pos` on, appending to
/// `out` until the zero terminator.
pub open spec fn wl4_decode8_runs(input: Seq<u8>, pos: int, out: Seq<u8>) -> Result<
    Seq<u8>,
    CompressionError,
>
    decreases input.len() - pos,
        when 0 <= pos
{
    if pos >= input.len() {
        Err(CompressionError::Truncated)
    } else {
        let control = input[pos];
        if control == 0 {
            Ok(out)
        } else if control < 0x80 {
            if pos + 1 + control > input.len() {
                Err(CompressionError::Truncated)
            } else {
                wl4_decode8_runs(
                    input,
                    pos + 1 + control,
                    out + input.subrange(pos + 1, pos + 1 + control),
                )
            }
        } else {
            let len = control - 0x80;
            if pos + 2 > input.len() {
                Err(CompressionError::Truncated)
            } else {
                wl4_decode8_runs(input, pos + 2, out + Seq::new(len as nat, |k: int| input[pos + 1]))
            }
        }
    }
}

/// What decompressing an 8-bit stream yields.
pub open spec fn wl4_decompress8_spec(input: Seq<u8>) -> Result<Seq<u8>, CompressionError> {
    if input.len() < 1 {
        Err(CompressionError::Truncated)
    } else if input[0] != 1 {
        Err(CompressionError::InvalidFormat)
    } else {
        wl4_decode8_runs(input, 1, Seq::empty())
    }
}

/// Decodes the run section of a 16-bit stream from `pos` on: control values
/// are big-endian 16-bit words.
pub open spec fn wl4_decode16_runs(input: Seq<u8>, pos: int, out: Seq<u8>) -> Result<
    Seq<u8>,
    CompressionError,
>
    decreases input.len() - pos,
        when 0 <= pos
{
    if pos + 2 > input.len() {
        Err(CompressionError::Truncated)
    } else {
        let control = u16_be_at(input, pos);
        if control == 0 {
            Ok(out)
        } else if control < 0x8000 {
            if pos + 2 + control > input.len() {
                Err(CompressionError::Truncated)
            } else {
                wl4_decode16_runs(
                    input,
                    pos + 2 + control,
                    out + input.subrange(pos + 2, pos + 2 + control),
                )
            }
        } else {
            let len = control - 0x8000;
            if pos + 3 > input.len() {
                Err(CompressionError::Truncated)
            } else {
                wl4_decode16_runs(
                    input,
                    pos + 3,
                    out + Seq::new(len as nat, |k: int| input[pos + 2]),
                )
            }
        }
    }
}

/// What decompressing a 16-bit stream yields.
pub open spec fn wl4_decompress16_spec(input: Seq<u8>) -> Result<Seq<u8>, CompressionError> {
    if input.len() < 1 {
        Err(CompressionError::Truncated)
    } else if input[0] != 2 {
        Err(CompressionError::InvalidFormat)
    } else {
        wl4_decode16_runs(input, 1, Seq::empty())
    }
}

/// What decompressing a stream of either width yields: dispatch on the type
/// byte.
pub open spec fn wl4_decompress_spec(input: Seq<u8>) -> Result<Seq<u8>, CompressionError> {
    if input.len() < 1 {
        Err(CompressionError::Truncated)
    } else if input[0] == 1 {
        wl4_decompress8_spec(input)
    } else if input[0] == 2 {
        wl4_decompress16_spec(input)
    } else {
        Err(CompressionError::InvalidFormat)
    }
}

/// The run section the greedy 8-bit encoder emits for `input[offset..]`,
/// including the zero terminator: repeat runs for stretches of at least 2
/// identical bytes (at most 127), literal runs of at most 127 bytes
/// otherwise.
pub open spec fn wl4_compress8_runs(input: Seq<u8>, offset: int) -> Seq<u8>
    decreases input.len() - offset,
        when 0 <= offset
        via wl4_compress8_runs_decreases
{
    if offset >= input.len() {
        seq![0u8]
    } else {
        let c = run_len(input, offset, 0x7F);
        if c == 1 {
            let l = nonrep_len(input, offset, 0x7F, 2);
            seq![l as u8] + input.subrange(offset, offset + l) + wl4_compress8_runs(
                input,
                offset + l,
            )
        } else {
            seq![(0x80 + c) as u8, input[offset]] + wl4_compress8_runs(input, offset + c)
        }
    }
}

#[via_fn]
proof fn wl4_compress8_runs_decreases(input: Seq<u8>, offset: int) {
    if offset < input.len() {
        lemma_wl4_run_bounds(input, offset, 0x7F);
    }
}

/// At a position inside the buffer the repeat run is non-empty and, when it
/// is exactly one byte, so is the literal stretch.
proof fn lemma_wl4_run_bounds(input: Seq<u8>, offset: int, max: int)
    requires
        0 <= offset < input.len(),
        1 <= max,
    ensures
        1 <= run_len(input, offset, max) <= max,
        offset + run_len(input, offset, max) <= input.len(),
        run_len(input, offset, max) == 1 ==> {
            &&& 1 <= nonrep_len(input, offset, max, 2) <= max
            &&& offset + nonrep_len(input, offset, max, 2) <= input.len()
        },
{
    lemma_run_len_props(input, offset, max);
    assert(run_len(input, offset, max) >= 1) by {
        assert(input[offset + 0] == input[offset]);
    }
    lemma_nonrep_len_props(input, offset, max, 2);
    if run_len(input, offset, max) == 1 && nonrep_len(input, offset, max, 2) == 0 {
        assert(run_len(input, offset + 0, max) >= 2);
    }
}

/// What the 8-bit encoder emits: the type byte followed by the runs.
pub open spec fn wl4_compress8_spec(input: Seq<u8>) -> Seq<u8> {
    seq![1u8] + wl4_compress8_runs(input, 0)
}

/// The run section the greedy 16-bit encoder emits for `input[offset..]`,
/// including the zero terminator: run lengths are capped at 32767 and stored
/// as big-endian 16-bit words.
pub open spec fn wl4_compress16_runs(input: Seq<u8>, offset: int) -> Seq<u8>
    decreases input.len() - offset,
        when 0 <= offset
        via wl4_compress16_runs_decreases
{
    if offset >= input.len() {
        seq![0u8, 0u8]
    } else {
        let c = run_len(input, offset, 0x7FFF);
        if c == 1 {
            let l = nonrep_len(input, offset, 0x7FFF, 2);
            u16_be_bytes(l) + input.subrange(offset, offset + l) + wl4_compress16_runs(
                input,
                offset + l,
            )
        } else {
            u16_be_bytes(0x8000 + c) + seq![input[offset]] + wl4_compress16_runs(input, offset + c)
        }
    }
}

#[via_fn]
proof fn wl4_compress16_runs_decreases(input: Seq<u8>, offset: int) {
    if offset < input.len() {
        lemma_wl4_run_bounds(input, offset, 0x7FFF);
    }
}

/// What the 16-bit encoder emits: the type byte followed by the runs.
pub open spec fn wl4_compress16_spec(input: Seq<u8>) -> Seq<u8> {
    seq![2u8] + wl4_compress16_runs(input, 0)
}

/// What the combined encoder emits: whichever of the two serializations is
/// smaller, the 16-bit one on ties.
pub open spec fn wl4_compress_spec(input: Seq<u8>) -> Seq<u8> {
    if wl4_compress8_spec(input).len() < wl4_compress16_spec(input).len() {
        wl4_compress8_spec(input)
    } else {
        wl4_compress16_spec(input)
    }
}

/// Decompresses an 8-bit Wario Land 4 stream.
pub fn decompress_wl4_rle8(input: &[u8]) -> (result: Result<Vec<u8>, CompressionError>)
    ensures
        result_view(result) == wl4_decompress8_spec(input@),
{
    if input.len() < 1 {
        return Err(CompressionError::Truncated);
    }
    if input[0] != 1 {
        return Err(CompressionError::InvalidFormat);
    }
    let ghost target = wl4_decode8_runs(input@, 1, Seq::empty());
    let mut out: Vec<u8> = Vec::new();
    let mut pos: usize = 1;
    loop
        invariant
            1 <= pos <= input@.len(),
            input@.len() >= 1,
            wl4_decode8_runs(input@, pos as int, out@) == target,
            wl4_decompress8_spec(input@) == target,
        ensures
            Ok::<Seq<u8>, CompressionError>(out@) == target,
        decreases input@.len() - pos,
    {
        if pos >= input.len() {
            return Err(CompressionError::Truncated);
        }
        let control = input[pos];
        if control == 0 {
            break ;
        } else if control < 0x80 {
            let len = control as usize;
            if input.len() - pos - 1 < len {
                return Err(CompressionError::Truncated);
            }
            crate::bytes::push_slice_range(&mut out, input, pos + 1, pos + 1 + len);
            pos = pos + 1 + len;
        } else {
            let len = (control - 0x80) as usize;
            if input.len() - pos < 2 {
                return Err(CompressionError::Truncated);
            }
            let value = input[pos + 1];
            crate::bytes::push_repeat(&mut out, value, len);
            pos = pos + 2;
        }
    }
    Ok(out)
}

/// Decompresses a 16-bit Wario Land 4 stream.
pub fn decompress_wl4_rle16(input: &[u8]) -> (result: Result<Vec<u8>, CompressionError>)
    ensures
        result_view(result) == wl4_decompress16_spec(input@),
{
    if input.len() < 1 {
        return Err(CompressionError::Truncated);
    }
    if input[0] != 2 {
        return Err(CompressionError::InvalidFormat);
    }
    let ghost target = wl4_decode16_runs(input@, 1, Seq::empty());
    let mut out: Vec<u8> = Vec::new();
    let mut pos: usize = 1;
    loop
        invariant
            1 <= pos <= input@.len(),
            input@.len() >= 1,
            wl4_decode16_runs(input@, pos as int, out@) == target,
            wl4_decompress16_spec(input@) == target,
        ensures
            Ok::<Seq<u8>, CompressionError>(out@) == target,
        decreases input@.len() - pos,
    {
        if input.len() - pos < 2 {
            return Err(CompressionError::Truncated);
        }
        let control = read_u16_be(input, pos);
        if control == 0 {
            break ;
        } else if control < 0x8000 {
            let len = control as usize;
            if input.len() - pos - 2 < len {
                return Err(CompressionError::Truncated);
            }
            crate::bytes::push_slice_range(&mut out, input, pos + 2, pos + 2 + len);
            pos = pos + 2 + len;
        } else {
            let len = (control - 0x8000) as usize;
            if input.len() - pos < 3 {
                return Err(CompressionError::Truncated);
            }
            let value = input[pos + 2];
            crate::bytes::push_repeat(&mut out, value, len);
            pos = pos + 3;
        }
    }
    Ok(out)
}

/// Decompresses a Wario Land 4 stream of either width, dispatching on the
/// leading type byte.
pub fn decompress_wl4_rle(input: &[u8]) -> (result: Result<Vec<u8>, CompressionError>)
    ensures
        result_view(result) == wl4_decompress_spec(input@),
{
    if input.len() < 1 {
        return Err(CompressionError::Truncated);
    }
    if input[0] == 1 {
        decompress_wl4_rle8(input)
    } else if input[0] == 2 {
        decompress_wl4_rle16(input)
    } else {
        Err(CompressionError::InvalidFormat)
    }
}

/// Compresses a byte buffer with 8-bit run fields.
pub fn compress_wl4_rle8(input: &[u8]) -> (result: Result<Vec<u8>, CompressionError>)
    ensures
        result_view(result) == Ok::<Seq<u8>, CompressionError>(wl4_compress8_spec(input@)),
{
    let mut out: Vec<u8> = Vec::new();
    out.push(1);
    assert(out@ =~= seq![1u8]);
    let mut offset: usize = 0;
    while offset < input.len()
        invariant
            0 <= offset <= input@.len(),
            out@ + wl4_compress8_runs(input@, offset as int) == seq![1u8] + wl4_compress8_runs(
                input@,
                0,
            ),
        decreases input@.len() - offset,
    {
        proof {
            lemma_wl4_run_bounds(input@, offset as int, 0x7F);
        }
        let c = consecutive_count_from(input, offset, 0x7F);
        if c == 1 {
            let l = non_consecutive_count_from(input, offset, 0x7F, 2);
            let ghost out_before = out@;
            out.push(l as u8);
            crate::bytes::push_slice_range(&mut out, input, offset, offset + l);
            assert(out@ =~= out_before + (seq![l as u8] + input@.subrange(
                offset as int,
                offset + l,
            )));
            offset = offset + l;
        } else {
            let ghost out_before = out@;
            out.push(0x80 + c as u8);
            out.push(input[offset]);
            assert(out@ =~= out_before + seq![(0x80 + c) as u8, input@[offset as int]]);
            offset = offset + c;
        }
    }
    out.push(0);
    assert(out@ =~= seq![1u8] + wl4_compress8_runs(input@, 0)) by {
        assert(wl4_compress8_runs(input@, input@.len() as int) == seq![0u8]);
    }
    Ok(out)
}

/// Compresses a byte buffer with 16-bit run fields.
pub fn compress_wl4_rle16(input: &[u8]) -> (result: Result<Vec<u8>, CompressionError>)
    ensures
        result_view(result) == Ok::<Seq<u8>, CompressionError>(wl4_compress16_spec(input@)),
{
    let mut out: Vec<u8> = Vec::new();
    out.push(2);
    assert(out@ =~= seq![2u8]);
    let mut offset: usize = 0;
    while offset < input.len()
        invariant
            0 <= offset <= input@.len(),
            out@ + wl4_compress16_runs(input@, offset as int) == seq![2u8] + wl4_compress16_runs(
                input@,
                0,
            ),
        decreases input@.len() - offset,
    {
        proof {
            lemma_wl4_run_bounds(input@, offset as int, 0x7FFF);
        }
        let c = consecutive_count_from(input, offset, 0x7FFF);
        if c == 1 {
            let l = non_consecutive_count_from(input, offset, 0x7FFF, 2);
            let ghost out_before = out@;
            push_u16_be(&mut out, l as u16);
            crate::bytes::push_slice_range(&mut out, input, offset, offset + l);
            assert(out@ =~= out_before + (u16_be_bytes(l as int) + input@.subrange(
                offset as int,
                offset + l,
            )));
            offset = offset + l;
        } else {
            let ghost out_before = out@;
            push_u16_be(&mut out, 0x8000 + c as u16);
            out.push(input[offset]);
            assert(out@ =~= out_before + (u16_be_bytes(0x8000 + c as int) + seq![
                input@[offset as int],
            ]));
            offset = offset + c;
        }
    }
    push_u16_be(&mut out, 0);
    assert(out@ =~= seq![2u8] + wl4_compress16_runs(input@, 0)) by {
        assert(wl4_compress16_runs(input@, input@.len() as int) == seq![0u8, 0u8]);
        assert(u16_be_bytes(0) =~= seq![0u8, 0u8]);
    }
    Ok(out)
}

/// Compresses a byte buffer with whichever run width serializes smaller,
/// keeping the 16-bit form on ties.
pub fn compress_wl4_rle(input: &[u8]) -> (result: Result<Vec<u8>, CompressionError>)
    ensures
        result_view(result) == Ok::<Seq<u8>, CompressionError>(wl4_compress_spec(input@)),
{
    let out8 = compress_wl4_rle8(input)?;
    let out16 = compress_wl4_rle16(input)?;
    if out8.len() < out16.len() {
        Ok(out8)
    } else {
        Ok(out16)
    }
}


/// Decoding the run section the 8-bit encoder emitted reproduces the
/// remaining input, whatever has been produced so far.
proof fn lemma_wl4_runs8_decode(input: Seq<u8>, offset: int, stream: Seq<u8>, pos: int, out: Seq<u8>)
    requires
        0 <= offset <= input.len(),
        0 <= pos <= stream.len(),
        stream.subrange(pos, stream.len() as int) == wl4_compress8_runs(input, offset),
    ensures
        wl4_decode8_runs(stream, pos, out) == Ok::<Seq<u8>, CompressionError>(
            out + input.subrange(offset, input.len() as int),
        ),
    decreases input.len() - offset,
{
    let tail = stream.subrange(pos, stream.len() as int);
    if offset >= input.len() {
        assert(stream[pos + 0] == tail[0]);
        assert(stream[pos] == 0);
        assert(out + input.subrange(offset, input.len() as int) =~= out);
    } else {
        lemma_wl4_run_bounds(input, offset, 0x7F);
        let c = run_len(input, offset, 0x7F);
        lemma_run_len_props(input, offset, 0x7F);
        if c == 1 {
            let l = nonrep_len(input, offset, 0x7F, 2);
            let lit = input.subrange(offset, offset + l);
            let chunk = seq![l as u8] + lit;
            let rest = wl4_compress8_runs(input, offset + l);
            assert(tail == chunk + rest);
            lemma_concat_suffix(stream, pos, chunk, rest);
            assert(stream[pos + 0] == chunk[0]);
            assert forall|k: int| 0 <= k < l implies stream.subrange(pos + 1, pos + 1 + l)[k]
                == lit[k] by {
                assert(stream[pos + (1 + k)] == chunk[1 + k]);
            }
            assert(stream.subrange(pos + 1, pos + 1 + l) =~= lit);
            let out2 = out + stream.subrange(pos + 1, pos + 1 + l);
            lemma_wl4_runs8_decode(input, offset + l, stream, pos + 1 + l, out2);
            assert(out2 + input.subrange(offset + l, input.len() as int) =~= out + input.subrange(
                offset,
                input.len() as int,
            ));
        } else {
            let chunk = seq![(0x80 + c) as u8, input[offset]];
            let rest = wl4_compress8_runs(input, offset + c);
            assert(tail == chunk + rest);
            lemma_concat_suffix(stream, pos, chunk, rest);
            assert(stream[pos + 0] == chunk[0]);
            assert(stream[pos + 1] == chunk[1]);
            let run = Seq::new(c as nat, |k: int| stream[pos + 1]);
            assert forall|k: int| 0 <= k < c implies run[k] == input.subrange(offset, offset + c)[k] by {
                assert(input[offset + k] == input[offset]);
            }
            assert(run =~= input.subrange(offset, offset + c));
            let out2 = out + run;
            lemma_wl4_runs8_decode(input, offset + c, stream, pos + 2, out2);
            assert(out2 + input.subrange(offset + c, input.len() as int) =~= out + input.subrange(
                offset,
                input.len() as int,
            ));
        }
    }
}

/// Round-trip identity for the 8-bit sub-codec, for every byte buffer.
pub proof fn lemma_wl4_rle8_round_trip(input: Seq<u8>)
    ensures
        wl4_decompress8_spec(wl4_compress8_spec(input)) == Ok::<Seq<u8>, CompressionError>(input),
{
    let stream = wl4_compress8_spec(input);
    assert(stream[0] == 1);
    assert(stream.subrange(1, stream.len() as int) =~= wl4_compress8_runs(input, 0));
    lemma_wl4_runs8_decode(input, 0, stream, 1, Seq::empty());
    assert(Seq::<u8>::empty() + input.subrange(0, input.len() as int) =~= input);
}

/// Decoding the run section the 16-bit encoder emitted reproduces the
/// remaining input, whatever has been produced so far.
proof fn lemma_wl4_runs16_decode(
    input: Seq<u8>,
    offset: int,
    stream: Seq<u8>,
    pos: int,
    out: Seq<u8>,
)
    requires
        0 <= offset <= input.len(),
        0 <= pos <= stream.len(),
        stream.subrange(pos, stream.len() as int) == wl4_compress16_runs(input, offset),
    ensures
        wl4_decode16_runs(stream, pos, out) == Ok::<Seq<u8>, CompressionError>(
            out + input.subrange(offset, input.len() as int),
        ),
    decreases input.len() - offset,
{
    let tail = stream.subrange(pos, stream.len() as int);
    if offset >= input.len() {
        assert(stream[pos + 0] == tail[0]);
        assert(stream[pos + 1] == tail[1]);
        assert(u16_be_at(stream, pos) == 0);
        assert(out + input.subrange(offset, input.len() as int) =~= out);
    } else {
        lemma_wl4_run_bounds(input, offset, 0x7FFF);
        let c = run_len(input, offset, 0x7FFF);
        lemma_run_len_props(input, offset, 0x7FFF);
        if c == 1 {
            let l = nonrep_len(input, offset, 0x7FFF, 2);
            let lit = input.subrange(offset, offset + l);
            let chunk = u16_be_bytes(l) + lit;
            let rest = wl4_compress16_runs(input, offset + l);
            assert(tail == chunk + rest);
            lemma_concat_suffix(stream, pos, chunk, rest);
            lemma_u16_be_bytes_value(l);
            assert(stream[pos + 0] == chunk[0]);
            assert(stream[pos + 1] == chunk[1]);
            assert(u16_be_at(stream, pos) == l);
            assert forall|k: int| 0 <= k < l implies stream.subrange(pos + 2, pos + 2 + l)[k]
                == lit[k] by {
                assert(stream[pos + (2 + k)] == chunk[2 + k]);
            }
            assert(stream.subrange(pos + 2, pos + 2 + l) =~= lit);
            let out2 = out + stream.subrange(pos + 2, pos + 2 + l);
            lemma_wl4_runs16_decode(input, offset + l, stream, pos + 2 + l, out2);
            assert(out2 + input.subrange(offset + l, input.len() as int) =~= out + input.subrange(
                offset,
                input.len() as int,
            ));
        } else {
            let chunk = u16_be_bytes(0x8000 + c) + seq![input[offset]];
            let rest = wl4_compress16_runs(input, offset + c);
            assert(tail == chunk + rest);
            lemma_concat_suffix(stream, pos, chunk, rest);
            lemma_u16_be_bytes_value(0x8000 + c);
            assert(stream[pos + 0] == chunk[0]);
            assert(stream[pos + 1] == chunk[1]);
            assert(stream[pos + 2] == chunk[2]);
            assert(u16_be_at(stream, pos) == 0x8000 + c);
            let run = Seq::new(c as nat, |k: int| stream[pos + 2]);
            assert forall|k: int| 0 <= k < c implies run[k] == input.subrange(offset, offset + c)[k] by {
                assert(input[offset + k] == input[offset]);
            }
            assert(run =~= input.subrange(offset, offset + c));
            let out2 = out + run;
            lemma_wl4_runs16_decode(input, offset + c, stream, pos + 3, out2);
            assert(out2 + input.subrange(offset + c, input.len() as int) =~= out + input.subrange(
                offset,
                input.len() as int,
            ));
        }
    }
}

/// Round-trip identity for the 16-bit sub-codec, for every byte buffer.
pub proof fn lemma_wl4_rle16_round_trip(input: Seq<u8>)
    ensures
        wl4_decompress16_spec(wl4_compress16_spec(input)) == Ok::<Seq<u8>, CompressionError>(
            input,
        ),
{
    let stream = wl4_compress16_spec(input);
    assert(stream[0] == 2);
    assert(stream.subrange(1, stream.len() as int) =~= wl4_compress16_runs(input, 0));
    lemma_wl4_runs16_decode(input, 0, stream, 1, Seq::empty());
    assert(Seq::<u8>::empty() + input.subrange(0, input.len() as int) =~= input);
}

/// Round-trip identity for the combined codec: whichever sub-encoding was
/// kept, the type-byte dispatch decodes it back to the input.
pub proof fn lemma_wl4_round_trip(input: Seq<u8>)
    ensures
        wl4_decompress_spec(wl4_compress_spec(input)) == Ok::<Seq<u8>, CompressionError>(input),
{
    if wl4_compress8_spec(input).len() < wl4_compress16_spec(input).len() {
        lemma_wl4_rle8_round_trip(input);
        assert(wl4_compress8_spec(input)[0] == 1);
    } else {
        lemma_wl4_rle16_round_trip(input);
        assert(wl4_compress16_spec(input)[0] == 2);
    }
}

} // verus!

