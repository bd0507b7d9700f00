//! The BIOS LZ77 codec.
//!
//! A stream is the shared header (type 1, parameter 0, 24-bit size) followed
//! by chunks of one bitmask byte and up to eight blocks.  Bit `i` of the mask
//! (most significant first) selects the kind of the `i`-th block: clear for
//! one raw byte, set for a two-byte backreference whose fields encode a copy
//! of `length` bytes starting `offset` bytes behind the write position.
//! Copies proceed byte by byte, so a backreference may overlap the bytes it
//! produces.  The compressor searches a 4096-byte window for the longest
//! match of 3 to 18 bytes, preferring the smallest offset on ties; in
//! VRAM-safe mode offsets start at 2 because the immediately preceding byte
//! may not yet be committed to the 16-bit video bus.

use vstd::prelude::*;

use crate::bios::{bios_compression_type, bios_compression_type_spec, BiosCompressionType};
use crate::bytes::{lemma_concat_suffix, lemma_u24_le_bytes_value, push_u24_le, u24_le_at, u24_le_bytes};
use crate::error::{result_view, CompressionError};
use crate::utils::{lemma_match_len_props, match_len, same_count_at};

verus! {

/// Whether bit `i` (most significant first) of a chunk mask is set.
pub open spec fn lz77_bit_set(mask: u8, i: int) -> bool {
    mask & (0x80u8 >> (i as u8)) != 0
}

/// The result of copying `len` bytes one at a time from `offset` bytes
/// behind the end of `out`: each copied byte immediately becomes a source
/// for the following ones.
pub open spec fn lz77_copy(out: Seq<u8>, offset: int, len: int) -> Seq<u8>
    recommends
        1 <= offset <= out.len(),
    decreases len,
{
    if len <= 0 {
        out
    } else {
        lz77_copy(out.push(out[out.len() - offset]), offset, len - 1)
    }
}

/// Decodes LZ77 blocks: at `i == -1` the next byte is a chunk mask, at
/// `0 <= i <= 7` the block selected by bit `i` of `mask` follows.  Decoding
/// ends as soon as `out` reaches `size`.
pub open spec fn lz77_decode(
    input: Seq<u8>,
    pos: int,
    mask: u8,
    i: int,
    out: Seq<u8>,
    size: int,
) -> Result<Seq<u8>, CompressionError>
    decreases size - out.len(), 7 - i,
        when -1 <= i <= 7
        via lz77_decode_decreases
{
    if out.len() >= size {
        Ok(out)
    } else if i == -1 {
        if pos < 0 || pos >= input.len() {
            Err(CompressionError::Truncated)
        } else {
            lz77_decode(input, pos + 1, input[pos], 0, out, size)
        }
    } else if !lz77_bit_set(mask, i) {
        if pos < 0 || pos >= input.len() {
            Err(CompressionError::Truncated)
        } else {
            lz77_decode(
                input,
                pos + 1,
                mask,
                if i == 7 {
                    -1
                } else {
                    i + 1
                },
                out.push(input[pos]),
                size,
            )
        }
    } else {
        if pos < 0 || pos + 2 > input.len() {
            Err(CompressionError::Truncated)
        } else {
            let b0 = input[pos];
            let b1 = input[pos + 1];
            let length = (b0 >> 4) + 3;
            let offset = (b0 & 0xF) * 0x100 + b1 + 1;
            if out.len() + length > size {
                Err(CompressionError::OutOfBounds)
            } else if offset > out.len() {
                Err(CompressionError::OutOfBounds)
            } else {
                lz77_decode(
                    input,
                    pos + 2,
                    mask,
                    if i == 7 {
                        -1
                    } else {
                        i + 1
                    },
                    lz77_copy(out, offset, length),
                    size,
                )
            }
        }
    }
}

#[via_fn]
proof fn lz77_decode_decreases(input: Seq<u8>, pos: int, mask: u8, i: int, out: Seq<u8>, size: int) {
    if out.len() < size && -1 <= i <= 7 && i != -1 && lz77_bit_set(mask, i) && 0 <= pos && pos + 2
        <= input.len() {
        let b0 = input[pos];
        let length = (b0 >> 4) + 3;
        let offset = (b0 & 0xF) * 0x100 + input[pos + 1] + 1;
        if out.len() + length <= size && offset <= out.len() {
            lemma_lz77_copy_len(out, offset as int, length as int);
        }
    }
}

/// Copying `len` bytes extends the output by exactly `len`.
pub proof fn lemma_lz77_copy_len(out: Seq<u8>, offset: int, len: int)
    requires
        0 <= len,
    ensures
        lz77_copy(out, offset, len).len() == out.len() + len,
    decreases len,
{
    if len > 0 {
        lemma_lz77_copy_len(out.push(out[out.len() - offset]), offset, len - 1);
    }
}

/// What decompressing an LZ77 stream yields.
pub open spec fn lz77_decompress_spec(input: Seq<u8>) -> Result<Seq<u8>, CompressionError> {
    if input.len() < 1 {
        Err(CompressionError::Truncated)
    } else if bios_compression_type_spec(input[0]) != Some(BiosCompressionType::Lz77) {
        Err(CompressionError::InvalidFormat)
    } else if input.len() < 4 {
        Err(CompressionError::Truncated)
    } else {
        lz77_decode(input, 4, 0, -1, Seq::empty(), u24_le_at(input, 1))
    }
}

/// Decompresses a BIOS LZ77 stream.
///
/// Returns exactly the declared number of bytes; fails with `InvalidFormat`
/// on a header whose type is not LZ77, `OutOfBounds` on a backreference that
/// would overshoot the declared size or reach before the start of the
/// output, and `Truncated` when the input ends early.
pub fn decompress_lz77(input: &[u8]) -> (result: Result<Vec<u8>, CompressionError>)
    ensures
        result_view(result) == lz77_decompress_spec(input@),
{
    if input.len() < 1 {
        return Err(CompressionError::Truncated);
    }
    if bios_compression_type(input[0]) != Some(BiosCompressionType::Lz77) {
        return Err(CompressionError::InvalidFormat);
    }
    if input.len() < 4 {
        return Err(CompressionError::Truncated);
    }
    let size = crate::bytes::read_u24_le(input, 1) as usize;
    let ghost target = lz77_decode(input@, 4, 0, -1, Seq::empty(), size as int);
    let mut out: Vec<u8> = Vec::new();
    let mut pos: usize = 4;
    while out.len() < size
        invariant
            4 <= pos <= input@.len(),
            out@.len() <= size,
            lz77_decode(input@, pos as int, 0, -1, out@, size as int) == target,
            lz77_decompress_spec(input@) == target,
        decreases size - out@.len(),
    {
        if pos >= input.len() {
            return Err(CompressionError::Truncated);
        }
        let mask = input[pos];
        pos = pos + 1;
        let ghost out_at_mask = out@;
        let mut i: usize = 0;
        while i < 8
            invariant
                i <= 8,
                4 <= pos <= input@.len(),
                out@.len() <= size,
                out_at_mask.len() <= out@.len(),
                out_at_mask.len() < size,
                i >= 1 ==> out@.len() > out_at_mask.len(),
                lz77_decompress_spec(input@) == target,
                i < 8 ==> lz77_decode(input@, pos as int, mask, i as int, out@, size as int)
                    == target,
                i == 8 ==> lz77_decode(input@, pos as int, mask, -1, out@, size as int) == target,
            decreases 8 - i,
        {
            if out.len() < size {
                if mask & (0x80u8 >> (i as u8)) == 0 {
                    if pos >= input.len() {
                        return Err(CompressionError::Truncated);
                    }
                    out.push(input[pos]);
                    pos = pos + 1;
                } else {
                    if input.len() - pos < 2 {
                        return Err(CompressionError::Truncated);
                    }
                    let b0 = input[pos];
                    let b1 = input[pos + 1];
                    let length = (b0 >> 4) as usize + 3;
                    let offset = (b0 & 0xF) as usize * 0x100 + b1 as usize + 1;
                    if size - out.len() < length {
                        return Err(CompressionError::OutOfBounds);
                    }
                    if offset > out.len() {
                        return Err(CompressionError::OutOfBounds);
                    }
                    let ghost out_before = out@;
                    let mut k: usize = 0;
                    while k < length
                        invariant
                            k <= length,
                            offset >= 1,
                            offset <= out@.len(),
                            out@.len() == out_before.len() + k,
                            lz77_copy(out_before, offset as int, length as int) == lz77_copy(
                                out@,
                                offset as int,
                                (length - k) as int,
                            ),
                        decreases length - k,
                    {
                        let idx = out.len() - offset;
                        let byte = out[idx];
                        out.push(byte);
                        k = k + 1;
                    }
                    assert(out@ == lz77_copy(out_before, offset as int, length as int));
                    proof {
                        lemma_lz77_copy_len(out_before, offset as int, length as int);
                    }
                    pos = pos + 2;
                }
            }
            i = i + 1;
        }
        proof {
            if out@.len() < size {
                assert(lz77_decode(input@, pos as int, mask, -1, out@, size as int)
                    == lz77_decode(input@, pos as int, 0, -1, out@, size as int));
            }
        }
    }
    Ok(out)
}


/// One emitted block: a raw byte, or a backreference of `length` bytes
/// starting `offset` bytes behind the write position.
#[derive(Clone, Copy)]
pub enum Lz77Block {
    Uncompressed { data: u8 },
    Reference { offset: u16, length: u8 },
}

/// The smallest offset the encoder may emit: 2 in VRAM-safe mode, 1
/// otherwise.
pub open spec fn lz77_min_offset(vram_safe: bool) -> int {
    if vram_safe {
        2
    } else {
        1
    }
}

/// Scans candidate offsets `off ..= max_off` in ascending order, keeping the
/// first match of each greatest length of at least 3 (a later offset
/// replaces the best only with a strictly greater length).
pub open spec fn lz77_scan(
    input: Seq<u8>,
    index: int,
    off: int,
    max_off: int,
    maxl: int,
    best: Option<(int, int)>,
) -> Option<(int, int)>
    decreases max_off + 1 - off,
{
    if off > max_off {
        best
    } else {
        let l = match_len(input, index, index - off, maxl);
        let next = if l >= 3 && (best is None || l > best.unwrap().1) {
            Some((off, l))
        } else {
            best
        };
        lz77_scan(input, index, off + 1, max_off, maxl, next)
    }
}

/// The backreference the greedy search selects at `index`, if any: offsets
/// up to `min(index, 4096)`, lengths capped at `min(remaining, 18)`.
pub open spec fn lz77_best_match(input: Seq<u8>, index: int, vram_safe: bool) -> Option<
    (int, int),
> {
    let max_off = if index < 4096 {
        index
    } else {
        4096
    };
    let maxl = if input.len() - index < 18 {
        input.len() - index
    } else {
        18
    };
    lz77_scan(input, index, lz77_min_offset(vram_safe), max_off, maxl, None)
}

/// A legal block: backreference offsets lie in the window the mode allows
/// and lengths in `3 ..= 18`.
pub open spec fn lz77_block_legal(b: Lz77Block, vram_safe: bool) -> bool {
    match b {
        Lz77Block::Uncompressed { .. } => true,
        Lz77Block::Reference { offset, length } => lz77_min_offset(vram_safe) <= offset <= 4096
            && 3 <= length <= 18,
    }
}

proof fn lemma_lz77_scan_props(
    input: Seq<u8>,
    index: int,
    off: int,
    max_off: int,
    maxl: int,
    best: Option<(int, int)>,
    off_lo: int,
)
    requires
        0 <= index <= input.len(),
        0 <= maxl,
        max_off <= index,
        off_lo <= off,
        best is Some ==> {
            let b = best.unwrap();
            &&& off_lo <= b.0 < off
            &&& b.0 <= max_off
            &&& 3 <= b.1 <= maxl
            &&& b.1 == match_len(input, index, index - b.0, maxl)
        },
    ensures
        ({
            let r = lz77_scan(input, index, off, max_off, maxl, best);
            r is Some ==> {
                let b = r.unwrap();
                &&& off_lo <= b.0 <= max_off
                &&& 3 <= b.1 <= maxl
                &&& b.1 == match_len(input, index, index - b.0, maxl)
            }
        }),
    decreases max_off + 1 - off,
{
    if off <= max_off {
        let l = match_len(input, index, index - off, maxl);
        lemma_match_len_props(input, index, index - off, maxl);
        let next = if l >= 3 && (best is None || l > best.unwrap().1) {
            Some((off, l))
        } else {
            best
        };
        lemma_lz77_scan_props(input, index, off + 1, max_off, maxl, next, off_lo);
    }
}

/// What the greedy search returns: a legal, in-window backreference whose
/// bytes match the bytes at `index`.
pub proof fn lemma_lz77_best_match_props(input: Seq<u8>, index: int, vram_safe: bool)
    requires
        0 <= index < input.len(),
    ensures
        ({
            let r = lz77_best_match(input, index, vram_safe);
            r is Some ==> {
                let b = r.unwrap();
                &&& lz77_min_offset(vram_safe) <= b.0 <= 4096
                &&& b.0 <= index
                &&& 3 <= b.1 <= 18
                &&& index + b.1 <= input.len()
                &&& forall|k: int| 0 <= k < b.1 ==> #[trigger] input[index + k] == input[index
                    - b.0 + k]
            }
        }),
{
    let max_off = if index < 4096 {
        index
    } else {
        4096
    };
    let maxl = if input.len() - index < 18 {
        input.len() - index
    } else {
        18
    };
    lemma_lz77_scan_props(
        input,
        index,
        lz77_min_offset(vram_safe),
        max_off,
        maxl,
        None,
        lz77_min_offset(vram_safe),
    );
    let r = lz77_scan(input, index, lz77_min_offset(vram_safe), max_off, maxl, None);
    if r is Some {
        let b = r.unwrap();
        lemma_match_len_props(input, index, index - b.0, maxl);
    }
}

/// The block sequence the greedy encoder chooses for `input[index..]`.
pub open spec fn lz77_plan(input: Seq<u8>, index: int, vram_safe: bool) -> Seq<Lz77Block>
    decreases input.len() - index,
        when 0 <= index
        via lz77_plan_decreases
{
    if index >= input.len() {
        Seq::empty()
    } else {
        match lz77_best_match(input, index, vram_safe) {
            Some(m) => seq![
                Lz77Block::Reference { offset: m.0 as u16, length: m.1 as u8 },
            ] + lz77_plan(input, index + m.1, vram_safe),
            None => seq![Lz77Block::Uncompressed { data: input[index] }] + lz77_plan(
                input,
                index + 1,
                vram_safe,
            ),
        }
    }
}

#[via_fn]
proof fn lz77_plan_decreases(input: Seq<u8>, index: int, vram_safe: bool) {
    if 0 <= index < input.len() {
        lemma_lz77_best_match_props(input, index, vram_safe);
    }
}

/// The wire encoding of one block.
pub open spec fn lz77_enc_block(b: Lz77Block) -> Seq<u8> {
    match b {
        Lz77Block::Uncompressed { data } => seq![data],
        Lz77Block::Reference { offset, length } => seq![
            ((length - 3) * 16 + (offset - 1) / 0x100) as u8,
            ((offset - 1) % 0x100) as u8,
        ],
    }
}

/// The mask bits contributed by the first `j` blocks of a chunk: bit
/// `0x80 >> k` is set when block `k` is a backreference.
pub open spec fn lz77_mask_upto(blocks: Seq<Lz77Block>, j: int) -> u8
    decreases j,
{
    if j <= 0 {
        0
    } else {
        lz77_mask_upto(blocks, j - 1) | (if j - 1 < blocks.len() && blocks[j - 1] is Reference {
            0x80u8 >> ((j - 1) as u8)
        } else {
            0u8
        })
    }
}

/// The encodings of all given blocks, concatenated.
pub open spec fn lz77_enc_blocks(blocks: Seq<Lz77Block>) -> Seq<u8>
    decreases blocks.len(),
{
    if blocks.len() <= 0 {
        Seq::empty()
    } else {
        lz77_enc_block(blocks[0]) + lz77_enc_blocks(blocks.drop_first())
    }
}

/// The number of blocks in the chunk that starts a block sequence.
pub open spec fn lz77_chunk_len(blocks: Seq<Lz77Block>) -> int {
    if blocks.len() < 8 {
        blocks.len() as int
    } else {
        8
    }
}

/// The chunked wire encoding of a block sequence: each chunk is one mask
/// byte followed by the encodings of its up to eight blocks.
pub open spec fn lz77_enc_stream(blocks: Seq<Lz77Block>) -> Seq<u8>
    decreases blocks.len(),
{
    if blocks.len() <= 0 {
        Seq::empty()
    } else {
        let n = lz77_chunk_len(blocks);
        seq![lz77_mask_upto(blocks, n)] + lz77_enc_blocks(blocks.take(n)) + lz77_enc_stream(
            blocks.skip(n),
        )
    }
}

/// What compressing with the LZ77 codec yields: the header for
/// `input.len()` bytes followed by the chunked encoding of the greedy plan.
pub open spec fn lz77_compress_spec(input: Seq<u8>, vram_safe: bool) -> Seq<u8>
    recommends
        input.len() < 0x1000000,
{
    seq![0x10u8] + u24_le_bytes(input.len() as int) + lz77_enc_stream(lz77_plan(input, 0, vram_safe))
}


/// The mathematical view of the encoder's running best match.
pub open spec fn lz77_best_view(b: Option<(usize, usize)>) -> Option<(int, int)> {
    match b {
        None => None,
        Some(p) => Some((p.0 as int, p.1 as int)),
    }
}

/// Compresses a byte buffer with the BIOS LZ77 codec.
///
/// The output is the LZ77 header for `input.len()` bytes followed by the
/// chunked encoding of the blocks the greedy longest-match search chooses;
/// `input.len()` must fit the 24-bit size field.  In VRAM-safe mode no
/// backreference has offset 1.
pub fn compress_lz77(input: &[u8], vram_safe: bool) -> (result: Result<Vec<u8>, CompressionError>)
    requires
        input@.len() < 0x1000000,
    ensures
        result_view(result) == Ok::<Seq<u8>, CompressionError>(
            lz77_compress_spec(input@, vram_safe),
        ),
{
    let mut blocks: Vec<Lz77Block> = Vec::new();
    let mut index: usize = 0;
    while index < input.len()
        invariant
            0 <= index <= input@.len(),
            input@.len() < 0x1000000,
            blocks@ + lz77_plan(input@, index as int, vram_safe) == lz77_plan(input@, 0, vram_safe),
            forall|k: int|
                0 <= k < blocks@.len() ==> #[trigger] lz77_block_legal(blocks@[k], vram_safe),
        decreases input@.len() - index,
    {
        let max_offset = if index < 4096 {
            index
        } else {
            4096
        };
        let max_length = if input.len() - index < 18 {
            input.len() - index
        } else {
            18
        };
        let min_offset: usize = if vram_safe {
            2
        } else {
            1
        };
        let ghost max_off = max_offset as int;
        let ghost maxl = max_length as int;
        let mut best: Option<(usize, usize)> = None;
        let mut off: usize = min_offset;
        while off <= max_offset
            invariant
                min_offset <= off,
                max_offset <= index <= input@.len(),
                input@.len() < 0x1000000,
                max_off == max_offset as int,
                maxl == max_length as int,
                lz77_scan(input@, index as int, off as int, max_off, maxl, lz77_best_view(best))
                    == lz77_scan(
                    input@,
                    index as int,
                    min_offset as int,
                    max_off,
                    maxl,
                    None,
                ),
            decreases max_offset + 1 - off,
        {
            let l = same_count_at(input, index, index - off, max_length);
            if l >= 3 {
                let replace = match best {
                    None => true,
                    Some(b) => l > b.1,
                };
                if replace {
                    best = Some((off, l));
                }
            }
            off = off + 1;
        }
        assert(lz77_best_view(best) == lz77_best_match(input@, index as int, vram_safe));
        proof {
            lemma_lz77_best_match_props(input@, index as int, vram_safe);
        }
        let ghost blocks_before = blocks@;
        let ghost plan_here = lz77_plan(input@, index as int, vram_safe);
        match best {
            Some(b) => {
                let block = Lz77Block::Reference { offset: b.0 as u16, length: b.1 as u8 };
                blocks.push(block);
                assert(blocks@ + lz77_plan(input@, index + b.1, vram_safe) =~= blocks_before + (
                seq![block] + lz77_plan(input@, index + b.1, vram_safe)));
                index = index + b.1;
            },
            None => {
                let block = Lz77Block::Uncompressed { data: input[index] };
                blocks.push(block);
                assert(blocks@ + lz77_plan(input@, index + 1, vram_safe) =~= blocks_before + (
                seq![block] + lz77_plan(input@, index + 1, vram_safe)));
                index = index + 1;
            },
        }
    }
    assert(blocks@ =~= lz77_plan(input@, 0, vram_safe)) by {
        assert(lz77_plan(input@, input@.len() as int, vram_safe) == Seq::<Lz77Block>::empty());
        assert(blocks@ + Seq::<Lz77Block>::empty() =~= blocks@);
    }
    let ghost all_blocks = blocks@;
    let mut out: Vec<u8> = Vec::new();
    out.push(0x10);
    push_u24_le(&mut out, input.len() as u32);
    let ghost header = seq![0x10u8] + u24_le_bytes(input@.len() as int);
    assert(out@ =~= header);
    let mut c: usize = 0;
    assert(all_blocks.skip(0) =~= all_blocks);
    while c < blocks.len()
        invariant
            0 <= c <= all_blocks.len(),
            blocks@ == all_blocks,
            forall|k: int|
                0 <= k < all_blocks.len() ==> #[trigger] lz77_block_legal(
                    all_blocks[k],
                    vram_safe,
                ),
            out@ + lz77_enc_stream(all_blocks.skip(c as int)) == header + lz77_enc_stream(
                all_blocks,
            ),
        decreases all_blocks.len() - c,
    {
        let ghost rem = all_blocks.skip(c as int);
        let n = if blocks.len() - c < 8 {
            blocks.len() - c
        } else {
            8
        };
        assert(n as int == lz77_chunk_len(rem));
        let mut mask: u8 = 0;
        let mut j: usize = 0;
        while j < n
            invariant
                0 <= j <= n,
                n <= 8,
                c + n <= all_blocks.len(),
                all_blocks.len() <= usize::MAX,
                blocks@ == all_blocks,
                rem == all_blocks.skip(c as int),
                mask == lz77_mask_upto(rem, j as int),
            decreases n - j,
        {
            assert(rem[j as int] == all_blocks[c + j]);
            match blocks[c + j] {
                Lz77Block::Reference { .. } => {
                    mask = mask | (0x80u8 >> (j as u8));
                },
                Lz77Block::Uncompressed { .. } => {
                    assert(mask | 0u8 == mask) by (bit_vector);
                },
            }
            j = j + 1;
        }
        let ghost out_chunk_start = out@;
        out.push(mask);
        let ghost chunk = rem.take(n as int);
        assert(chunk.skip(0) =~= chunk);
        assert(out@ =~= out_chunk_start + seq![mask]);
        let mut j2: usize = 0;
        while j2 < n
            invariant
                0 <= j2 <= n,
                n <= 8,
                c + n <= all_blocks.len(),
                all_blocks.len() <= usize::MAX,
                n as int == lz77_chunk_len(rem),
                blocks@ == all_blocks,
                rem == all_blocks.skip(c as int),
                chunk == rem.take(n as int),
                forall|k: int|
                    0 <= k < all_blocks.len() ==> #[trigger] lz77_block_legal(
                        all_blocks[k],
                        vram_safe,
                    ),
                out@ + lz77_enc_blocks(chunk.skip(j2 as int)) == out_chunk_start + seq![mask]
                    + lz77_enc_blocks(chunk),
            decreases n - j2,
        {
            let ghost rest_blocks = chunk.skip(j2 as int);
            assert(rest_blocks[0] == all_blocks[c + j2]);
            assert(rest_blocks.drop_first() =~= chunk.skip(j2 as int + 1));
            assert(lz77_block_legal(all_blocks[c + j2], vram_safe));
            let ghost out_before = out@;
            match blocks[c + j2] {
                Lz77Block::Uncompressed { data } => {
                    out.push(data);
                    assert(out@ =~= out_before + lz77_enc_block(rest_blocks[0]));
                },
                Lz77Block::Reference { offset, length } => {
                    let o = offset as usize;
                    let l = length as usize;
                    out.push(((l - 3) * 16 + (o - 1) / 0x100) as u8);
                    out.push(((o - 1) % 0x100) as u8);
                    assert(out@ =~= out_before + lz77_enc_block(rest_blocks[0]));
                },
            }
            j2 = j2 + 1;
        }
        assert(chunk.skip(n as int) =~= Seq::<Lz77Block>::empty());
        assert(lz77_enc_blocks(Seq::<Lz77Block>::empty()) == Seq::<u8>::empty());
        assert(out@ + Seq::<u8>::empty() =~= out@);
        assert(out@ =~= out_chunk_start + (seq![mask] + lz77_enc_blocks(chunk)));
        assert(all_blocks.skip(c as int + n as int) =~= rem.skip(n as int));
        c = c + n;
        assert(out@ + lz77_enc_stream(all_blocks.skip(c as int)) =~= out_chunk_start + (seq![
            lz77_mask_upto(rem, lz77_chunk_len(rem)),
        ] + lz77_enc_blocks(rem.take(lz77_chunk_len(rem))) + lz77_enc_stream(
            rem.skip(lz77_chunk_len(rem)),
        )));
    }
    assert(all_blocks.skip(all_blocks.len() as int) =~= Seq::<Lz77Block>::empty());
    assert(out@ + Seq::<u8>::empty() =~= out@);
    assert(out@ =~= header + lz77_enc_stream(lz77_plan(input@, 0, vram_safe)));
    Ok(out)
}


/// How many output bytes one block produces.
pub open spec fn lz77_block_size(b: Lz77Block) -> int {
    match b {
        Lz77Block::Uncompressed { .. } => 1,
        Lz77Block::Reference { length, .. } => length as int,
    }
}

/// The output after applying one block.
pub open spec fn lz77_apply_block(out: Seq<u8>, b: Lz77Block) -> Seq<u8> {
    match b {
        Lz77Block::Uncompressed { data } => out.push(data),
        Lz77Block::Reference { offset, length } => lz77_copy(out, offset as int, length as int),
    }
}

/// The output after applying a block sequence in order.
pub open spec fn lz77_apply_all(out: Seq<u8>, blocks: Seq<Lz77Block>) -> Seq<u8>
    decreases blocks.len(),
{
    if blocks.len() <= 0 {
        out
    } else {
        lz77_apply_all(lz77_apply_block(out, blocks[0]), blocks.drop_first())
    }
}

/// The total number of output bytes a block sequence produces.
pub open spec fn lz77_produced(blocks: Seq<Lz77Block>) -> int
    decreases blocks.len(),
{
    if blocks.len() <= 0 {
        0
    } else {
        lz77_block_size(blocks[0]) + lz77_produced(blocks.drop_first())
    }
}

/// A block sequence is applicable to an output of `out_len` bytes: every
/// backreference points at already-produced output and has legal fields.
pub open spec fn lz77_blocks_ok(out_len: int, blocks: Seq<Lz77Block>) -> bool
    decreases blocks.len(),
{
    if blocks.len() <= 0 {
        true
    } else {
        match blocks[0] {
            Lz77Block::Uncompressed { .. } => lz77_blocks_ok(out_len + 1, blocks.drop_first()),
            Lz77Block::Reference { offset, length } => 1 <= offset <= 4096 && offset <= out_len
                && 3 <= length <= 18 && lz77_blocks_ok(out_len + length, blocks.drop_first()),
        }
    }
}

/// An applicable block sequence produces a non-negative number of bytes,
/// and a positive one when it is non-empty.
proof fn lemma_lz77_produced_props(out_len: int, blocks: Seq<Lz77Block>)
    requires
        lz77_blocks_ok(out_len, blocks),
    ensures
        lz77_produced(blocks) >= 0,
        blocks.len() > 0 ==> lz77_produced(blocks) >= 1,
    decreases blocks.len(),
{
    if blocks.len() > 0 {
        lemma_lz77_produced_props(out_len + lz77_block_size(blocks[0]), blocks.drop_first());
    }
}

/// Copying `l` bytes from a window that matches the bytes at `index`
/// extends the prefix of `input` from `index` to `index + l`.
proof fn lemma_lz77_copy_matches(input: Seq<u8>, index: int, o: int, l: int)
    requires
        1 <= o <= index,
        0 <= l,
        index + l <= input.len(),
        forall|k: int| 0 <= k < l ==> #[trigger] input[index + k] == input[index - o + k],
    ensures
        lz77_copy(input.take(index), o, l) == input.take(index + l),
    decreases l,
{
    if l > 0 {
        let out = input.take(index);
        assert(input[index + 0] == input[index - o + 0]);
        assert(out.push(out[out.len() - o]) =~= input.take(index + 1));
        assert forall|k: int| 0 <= k < l - 1 implies #[trigger] input[index + 1 + k] == input[
            index + 1 - o + k
        ] by {
            assert(input[index + (k + 1)] == input[index - o + (k + 1)]);
        }
        lemma_lz77_copy_matches(input, index + 1, o, l - 1);
    } else {
        assert(input.take(index) =~= input.take(index + l));
    }
}

/// The greedy plan is applicable, produces exactly the remaining input, and
/// applying it to the prefix already produced reconstructs the whole input.
pub proof fn lemma_lz77_plan_props(input: Seq<u8>, index: int, vram_safe: bool)
    requires
        0 <= index <= input.len(),
    ensures
        lz77_blocks_ok(index, lz77_plan(input, index, vram_safe)),
        lz77_produced(lz77_plan(input, index, vram_safe)) == input.len() - index,
        lz77_apply_all(input.take(index), lz77_plan(input, index, vram_safe)) == input,
    decreases input.len() - index,
{
    let plan = lz77_plan(input, index, vram_safe);
    if index >= input.len() {
        assert(input.take(index) =~= input);
    } else {
        lemma_lz77_best_match_props(input, index, vram_safe);
        match lz77_best_match(input, index, vram_safe) {
            Some(m) => {
                let block = Lz77Block::Reference { offset: m.0 as u16, length: m.1 as u8 };
                let rest = lz77_plan(input, index + m.1, vram_safe);
                assert(plan == seq![block] + rest);
                assert(plan[0] == block);
                assert(plan.drop_first() =~= rest);
                lemma_lz77_plan_props(input, index + m.1, vram_safe);
                lemma_lz77_copy_matches(input, index, m.0, m.1);
                assert(lz77_apply_block(input.take(index), block) == input.take(index + m.1));
            },
            None => {
                let block = Lz77Block::Uncompressed { data: input[index] };
                let rest = lz77_plan(input, index + 1, vram_safe);
                assert(plan == seq![block] + rest);
                assert(plan[0] == block);
                assert(plan.drop_first() =~= rest);
                lemma_lz77_plan_props(input, index + 1, vram_safe);
                assert(input.take(index).push(input[index]) =~= input.take(index + 1));
            },
        }
    }
}

/// Every block of the greedy plan is legal for the mode it was built with.
pub proof fn lemma_lz77_plan_legal(input: Seq<u8>, index: int, vram_safe: bool)
    requires
        0 <= index <= input.len(),
    ensures
        forall|k: int|
            0 <= k < lz77_plan(input, index, vram_safe).len() ==> #[trigger] lz77_block_legal(
                lz77_plan(input, index, vram_safe)[k],
                vram_safe,
            ),
    decreases input.len() - index,
{
    let plan = lz77_plan(input, index, vram_safe);
    if index < input.len() {
        lemma_lz77_best_match_props(input, index, vram_safe);
        match lz77_best_match(input, index, vram_safe) {
            Some(m) => {
                lemma_lz77_plan_legal(input, index + m.1, vram_safe);
                assert forall|k: int| 0 <= k < plan.len() implies #[trigger] lz77_block_legal(
                    plan[k],
                    vram_safe,
                ) by {
                    if k > 0 {
                        assert(plan[k] == lz77_plan(input, index + m.1, vram_safe)[k - 1]);
                    }
                }
            },
            None => {
                lemma_lz77_plan_legal(input, index + 1, vram_safe);
                assert forall|k: int| 0 <= k < plan.len() implies #[trigger] lz77_block_legal(
                    plan[k],
                    vram_safe,
                ) by {
                    if k > 0 {
                        assert(plan[k] == lz77_plan(input, index + 1, vram_safe)[k - 1]);
                    }
                }
            },
        }
    }
}


proof fn lemma_u8_or_bit(a: u8, b: u8, t: u8)
    by (bit_vector)
    requires
        t < 8,
    ensures
        ((a | b) & (0x80u8 >> t) != 0) == ((a & (0x80u8 >> t) != 0) || (b & (0x80u8 >> t) != 0)),
{
}

proof fn lemma_u8_single_bit(k: u8, t: u8)
    by (bit_vector)
    requires
        k < 8,
        t < 8,
    ensures
        ((0x80u8 >> k) & (0x80u8 >> t) != 0) == (k == t),
{
}

/// Bit `t` of the mask built from the first `n` blocks is set exactly when
/// block `t` exists and is a backreference.
proof fn lemma_lz77_mask_bits(blocks: Seq<Lz77Block>, n: int, t: int)
    requires
        0 <= n <= 8,
        0 <= t < 8,
    ensures
        lz77_bit_set(lz77_mask_upto(blocks, n), t) == (t < n && t < blocks.len() && blocks[t]
            is Reference),
    decreases n,
{
    if n > 0 {
        lemma_lz77_mask_bits(blocks, n - 1, t);
        let m = lz77_mask_upto(blocks, n - 1);
        let bit: u8 = if n - 1 < blocks.len() && blocks[n - 1] is Reference {
            0x80u8 >> ((n - 1) as u8)
        } else {
            0u8
        };
        lemma_u8_or_bit(m, bit, t as u8);
        if n - 1 < blocks.len() && blocks[n - 1] is Reference {
            lemma_u8_single_bit((n - 1) as u8, t as u8);
        } else {
            assert(0u8 & (0x80u8 >> (t as u8)) == 0) by (bit_vector);
        }
    } else {
        assert(0u8 & (0x80u8 >> (t as u8)) == 0) by (bit_vector);
    }
}

/// The two encoded bytes of a legal backreference decode back to its fields.
proof fn lemma_lz77_ref_bytes(offset: u16, length: u8)
    requires
        1 <= offset <= 4096,
        3 <= length <= 18,
    ensures
        ({
            let b0 = ((length - 3) * 16 + (offset - 1) / 0x100) as u8;
            let b1 = ((offset - 1) % 0x100) as u8;
            &&& (b0 >> 4) + 3 == length
            &&& (b0 & 0xF) * 0x100 + b1 + 1 == offset
        }),
{
    let li = length as int;
    let oi = offset as int;
    assert(0 <= (oi - 1) / 0x100 < 16 && 0 <= (oi - 1) % 0x100 < 0x100 && ((oi - 1) / 0x100) * 0x100
        + (oi - 1) % 0x100 == oi - 1) by (nonlinear_arith)
        requires
            1 <= oi <= 4096,
    ;
    let b0 = ((length - 3) * 16 + (offset - 1) / 0x100) as u8;
    let b1 = ((offset - 1) % 0x100) as u8;
    assert(b0 == (li - 3) * 16 + (oi - 1) / 0x100);
    assert(b0 >> 4 == b0 / 16 && b0 & 0xF == b0 % 16) by (bit_vector);
    assert(((li - 3) * 16 + (oi - 1) / 0x100) / 16 == li - 3 && ((li - 3) * 16 + (oi - 1) / 0x100)
        % 16 == (oi - 1) / 0x100) by (nonlinear_arith)
        requires
            0 <= li - 3 < 16,
            0 <= (oi - 1) / 0x100 < 16,
    ;
}

/// Decoding the encoded stream of an applicable block sequence, from any
/// decoder state, applies exactly those blocks.  `j == -1` means the next
/// byte is a chunk mask; at `0 <= j <= 7` the bits `j ..` of `mask` describe
/// the remaining blocks of the current chunk.
proof fn lemma_lz77_decode_enc(
    stream: Seq<u8>,
    pos: int,
    mask: u8,
    j: int,
    blocks: Seq<Lz77Block>,
    out: Seq<u8>,
    size: int,
)
    requires
        -1 <= j <= 7,
        0 <= pos <= stream.len(),
        lz77_blocks_ok(out.len() as int, blocks),
        out.len() + lz77_produced(blocks) == size,
        j == -1 ==> stream.subrange(pos, stream.len() as int) == lz77_enc_stream(blocks),
        j >= 0 ==> {
            let n = if 8 - j <= blocks.len() {
                8 - j
            } else {
                blocks.len() as int
            };
            stream.subrange(pos, stream.len() as int) == lz77_enc_blocks(blocks.take(n))
                + lz77_enc_stream(blocks.skip(n))
        },
        j >= 0 ==> forall|t: int|
            0 <= t < 8 - j && t < blocks.len() ==> #[trigger] lz77_bit_set(mask, j + t) == (
            blocks[t] is Reference),
    ensures
        lz77_decode(stream, pos, mask, j, out, size) == Ok::<Seq<u8>, CompressionError>(
            lz77_apply_all(out, blocks),
        ),
    decreases size - out.len(), 7 - j,
{
    lemma_lz77_produced_props(out.len() as int, blocks);
    if out.len() >= size {
        assert(blocks.len() == 0);
        assert(lz77_apply_all(out, blocks) == out);
    } else if j == -1 {
        assert(blocks.len() > 0);
        let n = lz77_chunk_len(blocks);
        let maskbyte = lz77_mask_upto(blocks, n);
        let rest = lz77_enc_blocks(blocks.take(n)) + lz77_enc_stream(blocks.skip(n));
        assert(stream.subrange(pos, stream.len() as int) == seq![maskbyte] + rest);
        lemma_concat_suffix(stream, pos, seq![maskbyte], rest);
        assert(stream[pos + 0] == maskbyte);
        assert forall|t: int| 0 <= t < 8 - 0 && t < blocks.len() implies #[trigger] lz77_bit_set(
            maskbyte,
            0 + t,
        ) == (blocks[t] is Reference) by {
            lemma_lz77_mask_bits(blocks, n, t);
        }
        assert(8 - 0 <= blocks.len() ==> n == 8 - 0);
        lemma_lz77_decode_enc(stream, pos + 1, maskbyte, 0, blocks, out, size);
    } else {
        assert(blocks.len() > 0);
        let n = if 8 - j <= blocks.len() {
            8 - j
        } else {
            blocks.len() as int
        };
        let b0block = blocks[0];
        let chunk = blocks.take(n);
        assert(chunk[0] == b0block);
        assert(chunk.drop_first() =~= blocks.drop_first().take(n - 1));
        let enc0 = lz77_enc_block(b0block);
        let rest = lz77_enc_blocks(chunk.drop_first()) + lz77_enc_stream(blocks.skip(n));
        assert(lz77_enc_blocks(chunk) == enc0 + lz77_enc_blocks(chunk.drop_first()));
        assert(stream.subrange(pos, stream.len() as int) =~= enc0 + rest);
        lemma_concat_suffix(stream, pos, enc0, rest);
        assert(lz77_bit_set(mask, j + 0) == (blocks[0] is Reference));
        let blocks2 = blocks.drop_first();
        let j2: int = if j == 7 {
            -1
        } else {
            j + 1
        };
        let n2 = if 8 - (j + 1) <= blocks2.len() {
            8 - (j + 1)
        } else {
            blocks2.len() as int
        };
        assert(n2 == n - 1);
        assert(blocks.skip(n) =~= blocks2.skip(n - 1));
        let ghost tail2 = lz77_enc_blocks(blocks2.take(n2)) + lz77_enc_stream(blocks2.skip(n2));
        assert(rest == tail2);
        if j == 7 {
            assert(n == 1);
            assert(chunk.drop_first().len() == 0);
            assert(lz77_enc_blocks(chunk.drop_first()) == Seq::<u8>::empty());
            assert(rest =~= lz77_enc_stream(blocks2));
        }
        assert forall|t: int|
            0 <= t < 8 - (j + 1) && t < blocks2.len() implies #[trigger] lz77_bit_set(
            mask,
            j + 1 + t,
        ) == (blocks2[t] is Reference) by {
            assert(lz77_bit_set(mask, j + (t + 1)) == (blocks[t + 1] is Reference));
            assert(blocks2[t] == blocks[t + 1]);
        }
        match b0block {
            Lz77Block::Uncompressed { data } => {
                assert(stream[pos + 0] == data);
                let out2 = out.push(data);
                assert(stream.subrange(pos + 1, stream.len() as int) == rest);
                lemma_lz77_decode_enc(stream, pos + 1, mask, j2, blocks2, out2, size);
                assert(lz77_apply_all(out, blocks) == lz77_apply_all(out2, blocks2));
            },
            Lz77Block::Reference { offset, length } => {
                lemma_lz77_ref_bytes(offset, length);
                assert(stream[pos + 0] == enc0[0]);
                assert(stream[pos + 1] == enc0[1]);
                let sb0 = stream[pos];
                let sb1 = stream[pos + 1];
                assert((sb0 >> 4) + 3 == length);
                assert((sb0 & 0xF) * 0x100 + sb1 + 1 == offset);
                lemma_lz77_produced_props(out.len() + length, blocks2);
                assert(out.len() + length <= size);
                let out2 = lz77_copy(out, offset as int, length as int);
                lemma_lz77_copy_len(out, offset as int, length as int);
                assert(stream.subrange(pos + 2, stream.len() as int) == rest);
                lemma_lz77_decode_enc(stream, pos + 2, mask, j2, blocks2, out2, size);
                assert(lz77_apply_all(out, blocks) == lz77_apply_all(out2, blocks2));
            },
        }
    }
}

/// Round-trip identity: decompressing a compressed buffer gives the buffer
/// back, in either mode, for every input that fits the 24-bit size field.
pub proof fn lemma_lz77_round_trip(input: Seq<u8>, vram_safe: bool)
    requires
        input.len() < 0x1000000,
    ensures
        lz77_decompress_spec(lz77_compress_spec(input, vram_safe)) == Ok::<
            Seq<u8>,
            CompressionError,
        >(input),
{
    let stream = lz77_compress_spec(input, vram_safe);
    let plan = lz77_plan(input, 0, vram_safe);
    lemma_u24_le_bytes_value(input.len() as int);
    assert(stream[0] == 0x10);
    assert(0x10u8 >> 4 == 1) by (bit_vector);
    assert(stream[1] == u24_le_bytes(input.len() as int)[0]);
    assert(stream[2] == u24_le_bytes(input.len() as int)[1]);
    assert(stream[3] == u24_le_bytes(input.len() as int)[2]);
    assert(u24_le_at(stream, 1) == input.len());
    assert(stream.subrange(4, stream.len() as int) =~= lz77_enc_stream(plan));
    lemma_lz77_plan_props(input, 0, vram_safe);
    assert(input.take(0) =~= Seq::<u8>::empty());
    lemma_lz77_decode_enc(stream, 4, 0, -1, plan, Seq::empty(), input.len() as int);
}

} // verus!




