//! Sequential big- and little-endian primitive reads and writes over
//! in-memory byte buffers.
//!
//! The readers are specified against spec functions that recompose the
//! integer from the bytes of the buffer's sequence view; the writers append
//! the bytes given by the matching `*_bytes` spec functions.

use vstd::prelude::*;

verus! {

/// The 16-bit little-endian value stored at `s[i]` and `s[i + 1]`.
pub open spec fn u16_le_at(s: Seq<u8>, i: int) -> int {
    s[i] + 0x100 * s[i + 1]
}

/// The 16-bit big-endian value stored at `s[i]` and `s[i + 1]`.
pub open spec fn u16_be_at(s: Seq<u8>, i: int) -> int {
    0x100 * s[i] + s[i + 1]
}

/// The 24-bit little-endian value stored at `s[i] .. s[i + 3]`.
pub open spec fn u24_le_at(s: Seq<u8>, i: int) -> int {
    s[i] + 0x100 * s[i + 1] + 0x10000 * s[i + 2]
}

/// The 32-bit little-endian value stored at `s[i] .. s[i + 4]`.
pub open spec fn u32_le_at(s: Seq<u8>, i: int) -> int {
    s[i] + 0x100 * s[i + 1] + 0x10000 * s[i + 2] + 0x1000000 * s[i + 3]
}

/// The two little-endian bytes of a 16-bit value.
pub open spec fn u16_le_bytes(v: int) -> Seq<u8>
    recommends
        0 <= v < 0x10000,
{
    seq![(v % 0x100) as u8, (v / 0x100) as u8]
}

/// The two big-endian bytes of a 16-bit value.
pub open spec fn u16_be_bytes(v: int) -> Seq<u8>
    recommends
        0 <= v < 0x10000,
{
    seq![(v / 0x100) as u8, (v % 0x100) as u8]
}

/// The three little-endian bytes of a 24-bit value.
pub open spec fn u24_le_bytes(v: int) -> Seq<u8>
    recommends
        0 <= v < 0x1000000,
{
    seq![(v % 0x100) as u8, ((v / 0x100) % 0x100) as u8, (v / 0x10000) as u8]
}

/// Writing a 16-bit value little-endian and reading it back is the identity.
pub proof fn lemma_u16_le_bytes_value(v: int)
    requires
        0 <= v < 0x10000,
    ensures
        u16_le_bytes(v).len() == 2,
        u16_le_bytes(v)[0] + 0x100 * u16_le_bytes(v)[1] == v,
{
    assert((v % 0x100) + 0x100 * (v / 0x100) == v && v / 0x100 < 0x100 && v % 0x100 < 0x100) by (nonlinear_arith)
        requires
            0 <= v < 0x10000,
    ;
}

/// Writing a 16-bit value big-endian and reading it back is the identity.
pub proof fn lemma_u16_be_bytes_value(v: int)
    requires
        0 <= v < 0x10000,
    ensures
        u16_be_bytes(v).len() == 2,
        0x100 * u16_be_bytes(v)[0] + u16_be_bytes(v)[1] == v,
{
    assert((v % 0x100) + 0x100 * (v / 0x100) == v && v / 0x100 < 0x100 && v % 0x100 < 0x100) by (nonlinear_arith)
        requires
            0 <= v < 0x10000,
    ;
}

/// Writing a 24-bit value little-endian and reading it back is the identity.
pub proof fn lemma_u24_le_bytes_value(v: int)
    requires
        0 <= v < 0x1000000,
    ensures
        u24_le_bytes(v).len() == 3,
        u24_le_bytes(v)[0] + 0x100 * u24_le_bytes(v)[1] + 0x10000 * u24_le_bytes(v)[2] == v,
{
    assert((v % 0x100) + 0x100 * ((v / 0x100) % 0x100) + 0x10000 * (v / 0x10000) == v && (v / 0x100)
        % 0x100 < 0x100 && v % 0x100 < 0x100 && v / 0x10000 < 0x100) by (nonlinear_arith)
        requires
            0 <= v < 0x1000000,
    ;
}

/// The 16-bit little-endian value stored at `buf[pos]` and `buf[pos + 1]`.
pub fn read_u16_le(buf: &[u8], pos: usize) -> (r: u16)
    requires
        pos + 2 <= buf@.len(),
    ensures
        r == u16_le_at(buf@, pos as int),
{
    buf[pos] as u16 + 0x100 * (buf[pos + 1] as u16)
}

/// The 16-bit big-endian value stored at `buf[pos]` and `buf[pos + 1]`.
pub fn read_u16_be(buf: &[u8], pos: usize) -> (r: u16)
    requires
        pos + 2 <= buf@.len(),
    ensures
        r == u16_be_at(buf@, pos as int),
{
    0x100 * (buf[pos] as u16) + buf[pos + 1] as u16
}

/// The 24-bit little-endian value stored at `buf[pos] .. buf[pos + 3]`.
pub fn read_u24_le(buf: &[u8], pos: usize) -> (r: u32)
    requires
        pos + 3 <= buf@.len(),
    ensures
        r == u24_le_at(buf@, pos as int),
        r < 0x1000000,
{
    buf[pos] as u32 + 0x100 * (buf[pos + 1] as u32) + 0x10000 * (buf[pos + 2] as u32)
}

/// The 32-bit little-endian value stored at `buf[pos] .. buf[pos + 4]`.
pub fn read_u32_le(buf: &[u8], pos: usize) -> (r: u32)
    requires
        pos + 4 <= buf@.len(),
    ensures
        r == u32_le_at(buf@, pos as int),
{
    buf[pos] as u32 + 0x100 * (buf[pos + 1] as u32) + 0x10000 * (buf[pos + 2] as u32) + 0x1000000
        * (buf[pos + 3] as u32)
}

/// Appends the two little-endian bytes of `v`.
pub fn push_u16_le(out: &mut Vec<u8>, v: u16)
    ensures
        final(out)@ == old(out)@ + u16_le_bytes(v as int),
{
    out.push((v % 0x100) as u8);
    out.push((v / 0x100) as u8);
    assert(out@ =~= old(out)@ + u16_le_bytes(v as int));
}

/// Appends the two big-endian bytes of `v`.
pub fn push_u16_be(out: &mut Vec<u8>, v: u16)
    ensures
        final(out)@ == old(out)@ + u16_be_bytes(v as int),
{
    out.push((v / 0x100) as u8);
    out.push((v % 0x100) as u8);
    assert(out@ =~= old(out)@ + u16_be_bytes(v as int));
}

/// Appends the three little-endian bytes of `v`, which must fit in 24 bits.
pub fn push_u24_le(out: &mut Vec<u8>, v: u32)
    requires
        v < 0x1000000,
    ensures
        final(out)@ == old(out)@ + u24_le_bytes(v as int),
{
    out.push((v % 0x100) as u8);
    out.push(((v / 0x100) % 0x100) as u8);
    out.push((v / 0x10000) as u8);
    assert(v / 0x10000 < 0x100) by (nonlinear_arith)
        requires
            v < 0x1000000u32,
    ;
    assert(out@ =~= old(out)@ + u24_le_bytes(v as int));
}

/// Appends `buf[from .. to]`.
pub fn push_slice_range(out: &mut Vec<u8>, buf: &[u8], from: usize, to: usize)
    requires
        from <= to <= buf@.len(),
    ensures
        final(out)@ == old(out)@ + buf@.subrange(from as int, to as int),
{
    let mut i: usize = from;
    while i < to
        invariant
            from <= i <= to <= buf@.len(),
            out@ == old(out)@ + buf@.subrange(from as int, i as int),
        decreases to - i,
    {
        out.push(buf[i]);
        i = i + 1;
        assert(out@ =~= old(out)@ + buf@.subrange(from as int, i as int));
    }
}

/// Appends `n` copies of `value`.
pub fn push_repeat(out: &mut Vec<u8>, value: u8, n: usize)
    ensures
        final(out)@ == old(out)@ + Seq::new(n as nat, |k: int| value),
{
    let mut i: usize = 0;
    while i < n
        invariant
            i <= n,
            out@ == old(out)@ + Seq::new(i as nat, |k: int| value),
        decreases n - i,
    {
        out.push(value);
        i = i + 1;
        assert(out@ =~= old(out)@ + Seq::new(i as nat, |k: int| value));
    }
}


/// Splits knowledge of `stream[pos..] == a + b` into indexwise facts about
/// `a` and the suffix equation for `b`.
pub proof fn lemma_concat_suffix(stream: Seq<u8>, pos: int, a: Seq<u8>, b: Seq<u8>)
    requires
        0 <= pos <= stream.len(),
        stream.subrange(pos, stream.len() as int) == a + b,
    ensures
        stream.len() == pos + a.len() + b.len(),
        forall|k: int| 0 <= k < a.len() ==> #[trigger] stream[pos + k] == a[k],
        stream.subrange(pos + a.len(), stream.len() as int) == b,
{
    let tail = stream.subrange(pos, stream.len() as int);
    assert(tail.len() == a.len() + b.len());
    assert forall|k: int| 0 <= k < a.len() implies #[trigger] stream[pos + k] == a[k] by {
        assert(stream.subrange(pos, stream.len() as int)[k] == stream[pos + k]);
        assert((a + b)[k] == a[k]);
    }
    assert forall|k: int|
        0 <= k < b.len() implies stream.subrange(pos + a.len(), stream.len() as int)[k] == b[k] by {
        assert(stream.subrange(pos + a.len(), stream.len() as int)[k] == stream[pos + a.len() + k]);
        assert(stream.subrange(pos, stream.len() as int)[a.len() + k] == stream[pos + a.len() + k]);
        assert((a + b)[a.len() + k] == b[k]);
    }
    assert(stream.subrange(pos + a.len(), stream.len() as int) =~= b);
}

} // verus!

