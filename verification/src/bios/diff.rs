//! The BIOS diff (delta) filter, in its 8-bit and 16-bit variants.
//!
//! Filtering replaces every element after the first with its wrapping
//! difference from the previous element; unfiltering is the wrapping prefix
//! sum.  A filtered stream is the shared header (type 8, parameter 1 or 2 for
//! the word size) followed by the raw delta words, little-endian for the
//! 16-bit variant.

use vstd::prelude::*;

use crate::bytes::{lemma_u24_le_bytes_value, push_u24_le, read_u16_le, u24_le_at, u24_le_bytes};
use crate::error::{result_view, CompressionError};
use vstd::wrapping::{u16_specs, u8_specs};

verus! {

/// The delta bytes the 8-bit filter stores: the first byte unchanged, then
/// each byte minus its predecessor, wrapping.
pub open spec fn diff8_deltas(input: Seq<u8>) -> Seq<u8> {
    Seq::new(
        input.len(),
        |i: int|
            if i == 0 {
                input[0]
            } else {
                u8_specs::wrapping_sub(input[i], input[i - 1])
            },
    )
}

/// The wrapping prefix sum of `s` up to and including index `i`.
pub open spec fn psum8_at(s: Seq<u8>, i: int) -> u8
    decreases i,
{
    if i <= 0 {
        s[0]
    } else {
        u8_specs::wrapping_add(psum8_at(s, i - 1), s[i])
    }
}

/// The wrapping prefix sums of a delta byte sequence: the unfiltered data.
pub open spec fn undiff8(s: Seq<u8>) -> Seq<u8> {
    Seq::new(s.len(), |i: int| psum8_at(s, i))
}

/// What the 8-bit filter emits: header (type 8, stream type 1, the input
/// length) followed by the deltas.
pub open spec fn filter_diff8_spec(input: Seq<u8>) -> Seq<u8>
    recommends
        input.len() < 0x1000000,
{
    seq![0x81u8] + u24_le_bytes(input.len() as int) + diff8_deltas(input)
}

/// What unfiltering an 8-bit diff stream yields.
pub open spec fn unfilter_diff8_spec(input: Seq<u8>) -> Result<Seq<u8>, CompressionError> {
    if input.len() < 1 {
        Err(CompressionError::Truncated)
    } else if !(input[0] >> 4 == 8 && input[0] & 0xF == 1) {
        Err(CompressionError::InvalidFormat)
    } else if input.len() < 4 {
        Err(CompressionError::Truncated)
    } else {
        let size = u24_le_at(input, 1);
        if input.len() < 4 + size {
            Err(CompressionError::Truncated)
        } else {
            Ok(undiff8(input.subrange(4, 4 + size)))
        }
    }
}

/// The 16-bit words of an even-length byte sequence, little-endian.
pub open spec fn words_of(s: Seq<u8>) -> Seq<u16>
    recommends
        s.len() % 2 == 0,
{
    Seq::new((s.len() / 2) as nat, |i: int| (s[2 * i] + 0x100 * s[2 * i + 1]) as u16)
}

/// The little-endian bytes of a 16-bit word sequence.
pub open spec fn bytes_of(w: Seq<u16>) -> Seq<u8> {
    Seq::new(
        2 * w.len(),
        |i: int|
            if i % 2 == 0 {
                (w[i / 2] % 0x100) as u8
            } else {
                (w[i / 2] / 0x100) as u8
            },
    )
}

/// The delta words the 16-bit filter stores.
pub open spec fn diff16_deltas(w: Seq<u16>) -> Seq<u16> {
    Seq::new(
        w.len(),
        |i: int|
            if i == 0 {
                w[0]
            } else {
                u16_specs::wrapping_sub(w[i], w[i - 1])
            },
    )
}

/// The wrapping prefix sum of a word sequence up to and including index `i`.
pub open spec fn psum16_at(w: Seq<u16>, i: int) -> u16
    decreases i,
{
    if i <= 0 {
        w[0]
    } else {
        u16_specs::wrapping_add(psum16_at(w, i - 1), w[i])
    }
}

/// The wrapping prefix sums of a delta word sequence: the unfiltered words.
pub open spec fn undiff16(w: Seq<u16>) -> Seq<u16> {
    Seq::new(w.len(), |i: int| psum16_at(w, i))
}

/// What the 16-bit filter emits for an even-length input: header (type 8,
/// stream type 2, the input length) followed by the delta words,
/// little-endian.  Odd-length input is rejected.
pub open spec fn filter_diff16_spec(input: Seq<u8>) -> Result<Seq<u8>, CompressionError>
    recommends
        input.len() < 0x1000000,
{
    if input.len() % 2 != 0 {
        Err(CompressionError::InvalidFormat)
    } else {
        Ok(
            seq![0x82u8] + u24_le_bytes(input.len() as int) + bytes_of(
                diff16_deltas(words_of(input)),
            ),
        )
    }
}

/// What unfiltering a 16-bit diff stream yields.
pub open spec fn unfilter_diff16_spec(input: Seq<u8>) -> Result<Seq<u8>, CompressionError> {
    if input.len() < 1 {
        Err(CompressionError::Truncated)
    } else if !(input[0] >> 4 == 8 && input[0] & 0xF == 2) {
        Err(CompressionError::InvalidFormat)
    } else if input.len() < 4 {
        Err(CompressionError::Truncated)
    } else {
        let size = u24_le_at(input, 1);
        if size % 2 != 0 {
            Err(CompressionError::InvalidFormat)
        } else if input.len() < 4 + size {
            Err(CompressionError::Truncated)
        } else {
            Ok(bytes_of(undiff16(words_of(input.subrange(4, 4 + size)))))
        }
    }
}

/// What the combined unfilter yields: it checks the diff-filter type nibble,
/// reads the size, and then dispatches on the stream-type nibble.
pub open spec fn unfilter_diff_spec(input: Seq<u8>) -> Result<Seq<u8>, CompressionError> {
    if input.len() < 1 {
        Err(CompressionError::Truncated)
    } else if input[0] >> 4 != 8 {
        Err(CompressionError::InvalidFormat)
    } else if input.len() < 4 {
        Err(CompressionError::Truncated)
    } else {
        let size = u24_le_at(input, 1);
        if input[0] & 0xF == 1 {
            if input.len() < 4 + size {
                Err(CompressionError::Truncated)
            } else {
                Ok(undiff8(input.subrange(4, 4 + size)))
            }
        } else if input[0] & 0xF == 2 {
            if size % 2 != 0 {
                Err(CompressionError::InvalidFormat)
            } else if input.len() < 4 + size {
                Err(CompressionError::Truncated)
            } else {
                Ok(bytes_of(undiff16(words_of(input.subrange(4, 4 + size)))))
            }
        } else {
            Err(CompressionError::InvalidFormat)
        }
    }
}

/// Applies the 8-bit diff filter: always succeeds for inputs that fit the
/// 24-bit size field.
pub fn filter_diff8(input: &[u8]) -> (result: Result<Vec<u8>, CompressionError>)
    requires
        input@.len() < 0x1000000,
    ensures
        result_view(result) == Ok::<Seq<u8>, CompressionError>(filter_diff8_spec(input@)),
{
    let mut out: Vec<u8> = Vec::new();
    out.push(0x81);
    push_u24_le(&mut out, input.len() as u32);
    let ghost header = seq![0x81u8] + u24_le_bytes(input@.len() as int);
    assert(out@ =~= header);
    let mut i: usize = 0;
    while i < input.len()
        invariant
            0 <= i <= input@.len(),
            out@ == header + diff8_deltas(input@).subrange(0, i as int),
            header == seq![0x81u8] + u24_le_bytes(input@.len() as int),
        decreases input@.len() - i,
    {
        if i == 0 {
            out.push(input[0]);
        } else {
            out.push(input[i].wrapping_sub(input[i - 1]));
        }
        i = i + 1;
        assert(out@ =~= header + diff8_deltas(input@).subrange(0, i as int));
    }
    assert(out@ =~= filter_diff8_spec(input@));
    Ok(out)
}

/// Reverses the 8-bit diff filter, reproducing the unfiltered bytes.
pub fn unfilter_diff8(input: &[u8]) -> (result: Result<Vec<u8>, CompressionError>)
    ensures
        result_view(result) == unfilter_diff8_spec(input@),
{
    if input.len() < 1 {
        return Err(CompressionError::Truncated);
    }
    let header = input[0];
    if !(header >> 4 == 8 && header & 0xF == 1) {
        return Err(CompressionError::InvalidFormat);
    }
    if input.len() < 4 {
        return Err(CompressionError::Truncated);
    }
    let size = crate::bytes::read_u24_le(input, 1) as usize;
    if input.len() - 4 < size {
        return Err(CompressionError::Truncated);
    }
    let ghost data = input@.subrange(4, 4 + size as int);
    let mut out: Vec<u8> = Vec::new();
    let mut acc: u8 = 0;
    let mut i: usize = 0;
    while i < size
        invariant
            0 <= i <= size,
            4 + size <= input@.len(),
            input@.len() <= usize::MAX,
            data == input@.subrange(4, 4 + size as int),
            out@ == undiff8(data).subrange(0, i as int),
            i > 0 ==> acc == psum8_at(data, i - 1),
        decreases size - i,
    {
        let b = input[4 + i];
        assert(b == data[i as int]);
        if i == 0 {
            acc = b;
        } else {
            acc = acc.wrapping_add(b);
        }
        out.push(acc);
        i = i + 1;
        assert(out@ =~= undiff8(data).subrange(0, i as int));
    }
    assert(out@ =~= undiff8(data));
    Ok(out)
}

/// Applies the 16-bit diff filter; the input length must be even, and fit
/// the 24-bit size field.
pub fn filter_diff16(input: &[u8]) -> (result: Result<Vec<u8>, CompressionError>)
    requires
        input@.len() < 0x1000000,
    ensures
        result_view(result) == filter_diff16_spec(input@),
{
    if input.len() % 2 != 0 {
        return Err(CompressionError::InvalidFormat);
    }
    let half = input.len() / 2;
    let ghost words = words_of(input@);
    let ghost deltas = diff16_deltas(words);
    assert(words.len() == half);
    let mut out: Vec<u8> = Vec::new();
    out.push(0x82);
    push_u24_le(&mut out, input.len() as u32);
    let ghost header = seq![0x82u8] + u24_le_bytes(input@.len() as int);
    assert(out@ =~= header);
    let mut prev: u16 = 0;
    let mut i: usize = 0;
    while i < half
        invariant
            0 <= i <= half,
            2 * half == input@.len(),
            input@.len() < 0x1000000,
            words == words_of(input@),
            deltas == diff16_deltas(words),
            header == seq![0x82u8] + u24_le_bytes(input@.len() as int),
            out@ == header + bytes_of(deltas).subrange(0, 2 * i as int),
            i > 0 ==> prev == words[i - 1],
        decreases half - i,
    {
        let w = read_u16_le(input, 2 * i);
        assert(w == words[i as int]);
        let d: u16 = if i == 0 {
            w
        } else {
            w.wrapping_sub(prev)
        };
        assert(d == deltas[i as int]);
        out.push((d % 0x100) as u8);
        out.push((d / 0x100) as u8);
        prev = w;
        i = i + 1;
        assert(out@ =~= header + bytes_of(deltas).subrange(0, 2 * i as int));
    }
    assert(out@ =~= header + bytes_of(deltas));
    Ok(out)
}

/// Reverses the 16-bit diff filter, reproducing the unfiltered bytes.
pub fn unfilter_diff16(input: &[u8]) -> (result: Result<Vec<u8>, CompressionError>)
    ensures
        result_view(result) == unfilter_diff16_spec(input@),
{
    if input.len() < 1 {
        return Err(CompressionError::Truncated);
    }
    let header = input[0];
    if !(header >> 4 == 8 && header & 0xF == 2) {
        return Err(CompressionError::InvalidFormat);
    }
    if input.len() < 4 {
        return Err(CompressionError::Truncated);
    }
    let size = crate::bytes::read_u24_le(input, 1) as usize;
    if size % 2 != 0 {
        return Err(CompressionError::InvalidFormat);
    }
    if input.len() - 4 < size {
        return Err(CompressionError::Truncated);
    }
    let ghost data = input@.subrange(4, 4 + size as int);
    let ghost words = words_of(data);
    let half = size / 2;
    assert(words.len() == half);
    let mut out: Vec<u8> = Vec::new();
    let mut acc: u16 = 0;
    let mut i: usize = 0;
    while i < half
        invariant
            0 <= i <= half,
            2 * half == size,
            4 + size <= input@.len(),
            input@.len() <= usize::MAX,
            data == input@.subrange(4, 4 + size as int),
            words == words_of(data),
            out@ == bytes_of(undiff16(words)).subrange(0, 2 * i as int),
            i > 0 ==> acc == psum16_at(words, i - 1),
        decreases half - i,
    {
        let w = read_u16_le(input, 4 + 2 * i);
        assert(data[2 * i as int] == input@[4 + 2 * i as int]);
        assert(data[2 * i as int + 1] == input@[4 + 2 * i as int + 1]);
        assert(w == words[i as int]);
        if i == 0 {
            acc = w;
        } else {
            acc = acc.wrapping_add(w);
        }
        assert(acc == psum16_at(words, i as int));
        out.push((acc % 0x100) as u8);
        out.push((acc / 0x100) as u8);
        i = i + 1;
        assert(out@ =~= bytes_of(undiff16(words)).subrange(0, 2 * i as int));
    }
    assert(out@ =~= bytes_of(undiff16(words)));
    Ok(out)
}

/// Reverses either diff filter, dispatching on the stream-type nibble of the
/// header.
pub fn unfilter_diff(input: &[u8]) -> (result: Result<Vec<u8>, CompressionError>)
    ensures
        result_view(result) == unfilter_diff_spec(input@),
{
    if input.len() < 1 {
        return Err(CompressionError::Truncated);
    }
    let header = input[0];
    if header >> 4 != 8 {
        return Err(CompressionError::InvalidFormat);
    }
    if input.len() < 4 {
        return Err(CompressionError::Truncated);
    }
    if header & 0xF == 1 {
        unfilter_diff8(input)
    } else if header & 0xF == 2 {
        unfilter_diff16(input)
    } else {
        Err(CompressionError::InvalidFormat)
    }
}


/// The prefix sums of the deltas of `input` reproduce `input` pointwise.
proof fn lemma_psum8_of_deltas(input: Seq<u8>, i: int)
    requires
        0 <= i < input.len(),
    ensures
        psum8_at(diff8_deltas(input), i) == input[i],
    decreases i,
{
    if i > 0 {
        lemma_psum8_of_deltas(input, i - 1);
    }
}

/// Round-trip identity for the 8-bit filter: unfiltering a filtered buffer
/// gives the buffer back, for every input that fits the 24-bit size field.
pub proof fn lemma_diff8_round_trip(input: Seq<u8>)
    requires
        input.len() < 0x1000000,
    ensures
        unfilter_diff8_spec(filter_diff8_spec(input)) == Ok::<Seq<u8>, CompressionError>(input),
{
    let stream = filter_diff8_spec(input);
    let header = seq![0x81u8] + u24_le_bytes(input.len() as int);
    lemma_u24_le_bytes_value(input.len() as int);
    assert(stream[0] == 0x81);
    assert(0x81u8 >> 4 == 8 && 0x81u8 & 0xF == 1) by (bit_vector);
    assert(stream[1] == u24_le_bytes(input.len() as int)[0]);
    assert(stream[2] == u24_le_bytes(input.len() as int)[1]);
    assert(stream[3] == u24_le_bytes(input.len() as int)[2]);
    assert(u24_le_at(stream, 1) == input.len());
    assert(stream.subrange(4, stream.len() as int) =~= diff8_deltas(input));
    assert forall|i: int| 0 <= i < input.len() implies undiff8(diff8_deltas(input))[i]
        == input[i] by {
        lemma_psum8_of_deltas(input, i);
    }
    assert(undiff8(diff8_deltas(input)) =~= input);
}

/// The prefix sums of the word deltas of `w` reproduce `w` pointwise.
proof fn lemma_psum16_of_deltas(w: Seq<u16>, i: int)
    requires
        0 <= i < w.len(),
    ensures
        psum16_at(diff16_deltas(w), i) == w[i],
    decreases i,
{
    if i > 0 {
        lemma_psum16_of_deltas(w, i - 1);
    }
}

/// Splitting a 16-bit word into its little-endian bytes and recombining them
/// is the identity, in both directions.
proof fn lemma_word_bytes(a: u8, b: u8)
    ensures
        ((a + 0x100 * b) as u16) % 0x100 == a,
        ((a + 0x100 * b) as u16) / 0x100 == b,
{
    assert((a + 0x100 * b) % 0x100 == a && (a + 0x100 * b) / 0x100 == b) by (nonlinear_arith);
}

/// Taking words of an even-length byte sequence and serialising them again
/// is the identity.
proof fn lemma_bytes_of_words_of(s: Seq<u8>)
    requires
        s.len() % 2 == 0,
    ensures
        bytes_of(words_of(s)) == s,
{
    assert forall|i: int| 0 <= i < s.len() implies bytes_of(words_of(s))[i] == s[i] by {
        if i % 2 == 0 {
            lemma_word_bytes(s[i], s[i + 1]);
            assert(words_of(s)[i / 2] == (s[2 * (i / 2)] + 0x100 * s[2 * (i / 2) + 1]) as u16);
        } else {
            lemma_word_bytes(s[i - 1], s[i]);
            assert(words_of(s)[i / 2] == (s[2 * (i / 2)] + 0x100 * s[2 * (i / 2) + 1]) as u16);
            assert(2 * (i / 2) == i - 1);
        }
    }
    assert(bytes_of(words_of(s)) =~= s);
}

/// Serialising a word sequence and taking words again is the identity.
proof fn lemma_words_of_bytes_of(w: Seq<u16>)
    ensures
        words_of(bytes_of(w)) == w,
    {
    let s = bytes_of(w);
    assert(s.len() == 2 * w.len());
    assert forall|i: int| 0 <= i < w.len() implies words_of(s)[i] == w[i] by {
        assert(s[2 * i] == (w[i] % 0x100) as u8);
        assert(s[2 * i + 1] == (w[i] / 0x100) as u8);
        assert((w[i] % 0x100) + 0x100 * (w[i] / 0x100) == w[i] && w[i] / 0x100 < 0x100) by (nonlinear_arith);
    }
    assert(words_of(bytes_of(w)) =~= w);
}

/// Round-trip identity for the 16-bit filter: unfiltering a filtered buffer
/// gives the buffer back, for every even-length input that fits the 24-bit
/// size field.
pub proof fn lemma_diff16_round_trip(input: Seq<u8>)
    requires
        input.len() < 0x1000000,
        input.len() % 2 == 0,
    ensures
        filter_diff16_spec(input) matches Ok(stream) && unfilter_diff16_spec(stream) == Ok::<
            Seq<u8>,
            CompressionError,
        >(input),
{
    let words = words_of(input);
    let deltas = diff16_deltas(words);
    let body = bytes_of(deltas);
    let stream = (seq![0x82u8] + u24_le_bytes(input.len() as int)) + body;
    assert(filter_diff16_spec(input) == Ok::<Seq<u8>, CompressionError>(
        seq![0x82u8] + u24_le_bytes(input.len() as int) + body,
    ));
    assert(seq![0x82u8] + u24_le_bytes(input.len() as int) + body =~= stream);
    lemma_u24_le_bytes_value(input.len() as int);
    assert(stream[0] == 0x82);
    assert(0x82u8 >> 4 == 8 && 0x82u8 & 0xF == 2) by (bit_vector);
    assert(stream[1] == u24_le_bytes(input.len() as int)[0]);
    assert(stream[2] == u24_le_bytes(input.len() as int)[1]);
    assert(stream[3] == u24_le_bytes(input.len() as int)[2]);
    assert(u24_le_at(stream, 1) == input.len());
    assert(stream.len() == 4 + input.len());
    assert(stream.subrange(4, stream.len() as int) =~= body);
    lemma_words_of_bytes_of(deltas);
    assert forall|i: int| 0 <= i < words.len() implies undiff16(deltas)[i] == words[i] by {
        lemma_psum16_of_deltas(words, i);
    }
    assert(undiff16(deltas) =~= words);
    lemma_bytes_of_words_of(input);
    assert(unfilter_diff16_spec(stream) == Ok::<Seq<u8>, CompressionError>(input));
}

/// A delta stream that is all zero after its first byte unfilters to a
/// constant buffer.
pub proof fn lemma_diff8_zero_deltas_constant(data: Seq<u8>)
    requires
        data.len() >= 1,
        forall|i: int| 1 <= i < data.len() ==> #[trigger] data[i] == 0,
    ensures
        undiff8(data) == Seq::new(data.len(), |i: int| data[0]),
{
    assert forall|i: int| 0 <= i < data.len() implies psum8_at(data, i) == data[0] by {
        lemma_psum8_constant(data, i);
    }
    assert(undiff8(data) =~= Seq::new(data.len(), |i: int| data[0]));
}

proof fn lemma_psum8_constant(data: Seq<u8>, i: int)
    requires
        0 <= i < data.len(),
        forall|k: int| 1 <= k < data.len() ==> #[trigger] data[k] == 0,
    ensures
        psum8_at(data, i) == data[0],
    decreases i,
{
    if i > 0 {
        lemma_psum8_constant(data, i - 1);
    }
}

} // verus!

