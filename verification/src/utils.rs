//! Run counting helpers shared by the run-length and LZ77 encoders.
//!
//! All three counters scan a byte buffer from a starting index and are
//! specified by recursive spec functions over the buffer's sequence view, so
//! that the encoders' own specifications can be stated over the same
//! functions.

use vstd::prelude::*;

verus! {

/// Length of the run of bytes equal to `s[start]`, counted from `s[start + i]`
/// on, capped at `max` bytes and at the end of the buffer.
pub open spec fn run_len_from(s: Seq<u8>, start: int, i: int, max: int) -> int
    decreases s.len() - start - i,
        when 0 <= i && 0 <= start && start + i <= s.len()
{
    if start + i < s.len() && i < max && s[start + i] == s[start] {
        run_len_from(s, start, i + 1, max)
    } else {
        i
    }
}

/// Length of the run of bytes equal to `s[start]` beginning at `s[start]`,
/// capped at `max`.
pub open spec fn run_len(s: Seq<u8>, start: int, max: int) -> int {
    run_len_from(s, start, 0, max)
}

/// Length of the non-repeating stretch beginning at `s[start]`: bytes are
/// counted while the repeat run starting at each of them (capped at `max`)
/// stays below `threshold`.
pub open spec fn nonrep_len_from(s: Seq<u8>, start: int, i: int, max: int, threshold: int) -> int
    decreases s.len() - start - i,
        when 0 <= i && 0 <= start && start + i <= s.len()
{
    if start + i < s.len() && i < max && run_len(s, start + i, max) < threshold {
        nonrep_len_from(s, start, i + 1, max, threshold)
    } else {
        i
    }
}

/// Length of the non-repeating stretch beginning at `s[start]`.
pub open spec fn nonrep_len(s: Seq<u8>, start: int, max: int, threshold: int) -> int {
    nonrep_len_from(s, start, 0, max, threshold)
}

/// Length of the common prefix of the two stretches of `s` beginning at `p1`
/// and `p2`, capped at `max`.
pub open spec fn match_len_from(s: Seq<u8>, p1: int, p2: int, i: int, max: int) -> int
    decreases s.len() - p1 - i,
        when 0 <= i && 0 <= p1 && 0 <= p2 && p1 + i <= s.len()
{
    if p1 + i < s.len() && p2 + i < s.len() && i < max && s[p1 + i] == s[p2 + i] {
        match_len_from(s, p1, p2, i + 1, max)
    } else {
        i
    }
}

/// Length of the common prefix of the stretches of `s` beginning at `p1` and
/// `p2`, capped at `max`.
pub open spec fn match_len(s: Seq<u8>, p1: int, p2: int, max: int) -> int {
    match_len_from(s, p1, p2, 0, max)
}

/// What `run_len` returns: a maximal run of copies of `s[start]`.
pub proof fn lemma_run_len_props(s: Seq<u8>, start: int, max: int)
    requires
        0 <= start <= s.len(),
        0 <= max,
    ensures
        ({
            let r = run_len(s, start, max);
            &&& 0 <= r <= max
            &&& start + r <= s.len()
            &&& forall|k: int| 0 <= k < r ==> #[trigger] s[start + k] == s[start]
            &&& (r < max && start + r < s.len() ==> s[start + r] != s[start])
        }),
{
    lemma_run_len_from_props(s, start, 0, max);
}

proof fn lemma_run_len_from_props(s: Seq<u8>, start: int, i: int, max: int)
    requires
        0 <= start,
        0 <= i <= max,
        start + i <= s.len(),
    ensures
        ({
            let r = run_len_from(s, start, i, max);
            &&& i <= r <= max
            &&& start + r <= s.len()
            &&& forall|k: int| i <= k < r ==> #[trigger] s[start + k] == s[start]
            &&& (r < max && start + r < s.len() ==> s[start + r] != s[start])
        }),
    decreases s.len() - start - i,
{
    if start + i < s.len() && i < max && s[start + i] == s[start] {
        lemma_run_len_from_props(s, start, i + 1, max);
    }
}

/// A shorter cap truncates the run and changes nothing else.
pub proof fn lemma_run_len_mono(s: Seq<u8>, start: int, max1: int, max2: int)
    requires
        0 <= start <= s.len(),
        0 <= max1 <= max2,
    ensures
        run_len(s, start, max1) == if run_len(s, start, max2) <= max1 {
            run_len(s, start, max2)
        } else {
            max1
        },
{
    lemma_run_len_from_mono(s, start, 0, max1, max2);
}

proof fn lemma_run_len_from_mono(s: Seq<u8>, start: int, i: int, max1: int, max2: int)
    requires
        0 <= start,
        0 <= i <= max1 <= max2,
        start + i <= s.len(),
    ensures
        run_len_from(s, start, i, max1) == if run_len_from(s, start, i, max2) <= max1 {
            run_len_from(s, start, i, max2)
        } else {
            max1
        },
    decreases s.len() - start - i,
{
    if start + i < s.len() && i < max1 && s[start + i] == s[start] {
        lemma_run_len_from_mono(s, start, i + 1, max1, max2);
    } else if start + i < s.len() && i < max2 && s[start + i] == s[start] {
        lemma_run_len_from_props(s, start, i + 1, max2);
    }
}

/// What `nonrep_len` returns: a maximal stretch whose positions all start runs
/// shorter than `threshold`.
pub proof fn lemma_nonrep_len_props(s: Seq<u8>, start: int, max: int, threshold: int)
    requires
        0 <= start <= s.len(),
        0 <= max,
    ensures
        ({
            let r = nonrep_len(s, start, max, threshold);
            &&& 0 <= r <= max
            &&& start + r <= s.len()
            &&& forall|k: int| 0 <= k < r ==> #[trigger] run_len(s, start + k, max) < threshold
            &&& (r < max && start + r < s.len() ==> run_len(s, start + r, max) >= threshold)
        }),
{
    lemma_nonrep_len_from_props(s, start, 0, max, threshold);
}

proof fn lemma_nonrep_len_from_props(s: Seq<u8>, start: int, i: int, max: int, threshold: int)
    requires
        0 <= start,
        0 <= i <= max,
        start + i <= s.len(),
    ensures
        ({
            let r = nonrep_len_from(s, start, i, max, threshold);
            &&& i <= r <= max
            &&& start + r <= s.len()
            &&& forall|k: int| i <= k < r ==> #[trigger] run_len(s, start + k, max) < threshold
            &&& (r < max && start + r < s.len() ==> run_len(s, start + r, max) >= threshold)
        }),
    decreases s.len() - start - i,
{
    if start + i < s.len() && i < max && run_len(s, start + i, max) < threshold {
        lemma_nonrep_len_from_props(s, start, i + 1, max, threshold);
    }
}

/// What `match_len` returns: a maximal common prefix.
pub proof fn lemma_match_len_props(s: Seq<u8>, p1: int, p2: int, max: int)
    requires
        0 <= p1 <= s.len(),
        0 <= p2,
        0 <= max,
    ensures
        ({
            let r = match_len(s, p1, p2, max);
            &&& 0 <= r <= max
            &&& p1 + r <= s.len()
            &&& forall|k: int| 0 <= k < r ==> #[trigger] s[p1 + k] == s[p2 + k]
            &&& (r < max && p1 + r < s.len() && p2 + r < s.len() ==> s[p1 + r] != s[p2 + r])
        }),
{
    lemma_match_len_from_props(s, p1, p2, 0, max);
}

proof fn lemma_match_len_from_props(s: Seq<u8>, p1: int, p2: int, i: int, max: int)
    requires
        0 <= p1,
        0 <= p2,
        0 <= i <= max,
        p1 + i <= s.len(),
    ensures
        ({
            let r = match_len_from(s, p1, p2, i, max);
            &&& i <= r <= max
            &&& p1 + r <= s.len()
            &&& forall|k: int| i <= k < r ==> #[trigger] s[p1 + k] == s[p2 + k]
            &&& (r < max && p1 + r < s.len() && p2 + r < s.len() ==> s[p1 + r] != s[p2 + r])
        }),
    decreases s.len() - p1 - i,
{
    if p1 + i < s.len() && p2 + i < s.len() && i < max && s[p1 + i] == s[p2 + i] {
        lemma_match_len_from_props(s, p1, p2, i + 1, max);
    }
}

/// Number of leading bytes of `buf[start..]` equal to `buf[start]`, at most
/// `max_length`.
pub fn consecutive_count_from(buf: &[u8], start: usize, max_length: usize) -> (r: usize)
    requires
        start <= buf@.len(),
    ensures
        r == run_len(buf@, start as int, max_length as int),
        start + r <= buf@.len(),
{
    let mut i: usize = 0;
    while i < buf.len() - start && i < max_length && buf[start + i] == buf[start]
        invariant
            start + i <= buf@.len(),
            i <= max_length,
            run_len_from(buf@, start as int, i as int, max_length as int) == run_len(
                buf@,
                start as int,
                max_length as int,
            ),
        decreases buf@.len() - start - i,
    {
        i = i + 1;
    }
    i
}

/// Number of leading bytes of `buf` equal to `buf[0]`, at most `max_length`.
pub fn consecutive_count(buf: &[u8], max_length: usize) -> (r: usize)
    ensures
        r == run_len(buf@, 0, max_length as int),
{
    consecutive_count_from(buf, 0, max_length)
}

/// Number of leading bytes of `buf[start..]` whose repeat runs (capped at
/// `max_length`) stay below `consecutive_threshold`, at most `max_length`.
pub fn non_consecutive_count_from(
    buf: &[u8],
    start: usize,
    max_length: usize,
    consecutive_threshold: usize,
) -> (r: usize)
    requires
        start <= buf@.len(),
    ensures
        r == nonrep_len(buf@, start as int, max_length as int, consecutive_threshold as int),
        start + r <= buf@.len(),
{
    let mut i: usize = 0;
    loop
        invariant
            start + i <= buf@.len(),
            i <= max_length,
            nonrep_len_from(
                buf@,
                start as int,
                i as int,
                max_length as int,
                consecutive_threshold as int,
            ) == nonrep_len(buf@, start as int, max_length as int, consecutive_threshold as int),
        ensures
            i == nonrep_len(buf@, start as int, max_length as int, consecutive_threshold as int),
            start + i <= buf@.len(),
        decreases buf@.len() - start - i,
    {
        if i < buf.len() - start && i < max_length {
            let rl = consecutive_count_from(buf, start + i, max_length);
            if rl < consecutive_threshold {
                i = i + 1;
            } else {
                break ;
            }
        } else {
            break ;
        }
    }
    i
}

/// Number of leading bytes of `buf` whose repeat runs stay below
/// `consecutive_threshold`, at most `max_length`.
pub fn non_consecutive_count(buf: &[u8], max_length: usize, consecutive_threshold: usize) -> (r:
    usize)
    ensures
        r == nonrep_len(buf@, 0, max_length as int, consecutive_threshold as int),
{
    non_consecutive_count_from(buf, 0, max_length, consecutive_threshold)
}

/// Number of positions at which the stretches of `buf` beginning at `p1` and
/// `p2` agree, at most `max_length`.
pub fn same_count_at(buf: &[u8], p1: usize, p2: usize, max_length: usize) -> (r: usize)
    requires
        p1 <= buf@.len(),
        p2 <= buf@.len(),
    ensures
        r == match_len(buf@, p1 as int, p2 as int, max_length as int),
        p1 + r <= buf@.len(),
{
    let mut i: usize = 0;
    while i < buf.len() - p1 && i < buf.len() - p2 && i < max_length && buf[p1 + i] == buf[p2 + i]
        invariant
            p1 + i <= buf@.len(),
            p2 <= buf@.len(),
            i <= max_length,
            match_len_from(buf@, p1 as int, p2 as int, i as int, max_length as int) == match_len(
                buf@,
                p1 as int,
                p2 as int,
                max_length as int,
            ),
        decreases buf@.len() - p1 - i,
    {
        i = i + 1;
    }
    i
}

/// Length of the common prefix of `buf1` and `buf2`, at most `max_length`.
pub fn same_count(buf1: &[u8], buf2: &[u8], max_length: usize) -> (r: usize)
    ensures
        r == seqs_match_len(buf1@, buf2@, max_length as int),
{
    let mut i: usize = 0;
    while i < buf1.len() && i < buf2.len() && i < max_length && buf1[i] == buf2[i]
        invariant
            i <= buf1@.len(),
            i <= max_length,
            seqs_match_len_from(buf1@, buf2@, i as int, max_length as int) == seqs_match_len(
                buf1@,
                buf2@,
                max_length as int,
            ),
        decreases buf1@.len() - i,
    {
        i = i + 1;
    }
    i
}

/// Length of the common prefix of two sequences, counted from index `i` and
/// capped at `max`.
pub open spec fn seqs_match_len_from(a: Seq<u8>, b: Seq<u8>, i: int, max: int) -> int
    decreases a.len() - i,
        when 0 <= i && i <= a.len()
{
    if i < a.len() && i < b.len() && i < max && a[i] == b[i] {
        seqs_match_len_from(a, b, i + 1, max)
    } else {
        i
    }
}

/// Length of the common prefix of two sequences, capped at `max`.
pub open spec fn seqs_match_len(a: Seq<u8>, b: Seq<u8>, max: int) -> int {
    seqs_match_len_from(a, b, 0, max)
}

} // verus!
