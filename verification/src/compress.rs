//! Run-length encoding of raw bytes.
//!
//! The encoded stream is a sequence of records. A run record is the tag
//! `0x00`, a length byte and the repeated value; a literal record is the tag
//! `0x01`, a length byte and that many raw bytes.

use vstd::prelude::*;
use crate::bytes::append_range;

verus! {

/// Tag byte of a run record.
pub const TAG_RUN: u8 = 0x00;

/// Tag byte of a literal record.
pub const TAG_LITERAL: u8 = 0x01;

/// Longest run that one run record holds.
pub const MAX_RUN: usize = 255;

/// Longest span that one literal record holds.
pub const MAX_LITERAL: usize = 254;

/// The shortest run that is worth a run record at a compression level.
pub open spec fn run_threshold(level: u8) -> int {
    if 1 <= level <= 3 {
        4
    } else if 7 <= level <= 9 {
        2
    } else {
        3
    }
}

/// How many more bytes equal to `s[i]` follow once `k` of them are counted,
/// up to the cap of one run record.
pub open spec fn run_more(s: Seq<u8>, i: int, k: int) -> nat
    decreases MAX_RUN - k,
{
    if 0 <= i && 1 <= k < MAX_RUN && i + k < s.len() && s[i + k] == s[i] {
        1 + run_more(s, i, k + 1)
    } else {
        0
    }
}

/// Length of the run of identical bytes that starts at `i`, at most 255.
pub open spec fn run_len(s: Seq<u8>, i: int) -> int {
    1 + run_more(s, i, 1) as int
}

/// How many more positions a literal span that starts at `i` takes in once
/// it holds `k` bytes: it goes on until a run worth a record begins, the
/// input ends, or the span is full.
pub open spec fn literal_more(s: Seq<u8>, i: int, k: int, threshold: int) -> nat
    decreases MAX_LITERAL - k,
{
    if 0 <= i && 1 <= k < MAX_LITERAL && i + k < s.len() && run_len(s, i + k) < threshold {
        1 + literal_more(s, i, k + 1, threshold)
    } else {
        0
    }
}

/// Length of the literal span that starts at `i`, at least 1 and at most 254.
pub open spec fn literal_len(s: Seq<u8>, i: int, threshold: int) -> int {
    1 + literal_more(s, i, 1, threshold) as int
}

/// The records that encode `s` from position `i` on.
pub open spec fn encode_from(s: Seq<u8>, i: int, threshold: int) -> Seq<u8>
    decreases s.len() - i,
    via encode_from_terminates
{
    if i < 0 || i >= s.len() {
        Seq::empty()
    } else if run_len(s, i) >= threshold {
        seq![TAG_RUN, run_len(s, i) as u8, s[i]] + encode_from(s, i + run_len(s, i), threshold)
    } else {
        seq![TAG_LITERAL, literal_len(s, i, threshold) as u8] + s.subrange(
            i,
            i + literal_len(s, i, threshold),
        ) + encode_from(s, i + literal_len(s, i, threshold), threshold)
    }
}

#[via_fn]
proof fn encode_from_terminates(s: Seq<u8>, i: int, threshold: int) {
    if 0 <= i < s.len() {
        lemma_run_more(s, i, 1);
        lemma_literal_more(s, i, 1, threshold);
    }
}

/// The run-length encoding of `s` at a compression level.
pub open spec fn spec_compress(s: Seq<u8>, level: u8) -> Seq<u8> {
    encode_from(s, 0, run_threshold(level))
}

/// A run stays inside the input, holds 1 to 255 bytes, and all of them equal
/// the first.
pub proof fn lemma_run_more(s: Seq<u8>, i: int, k: int)
    requires
        0 <= i,
        1 <= k <= MAX_RUN,
        i + k <= s.len(),
        forall|j: int| i <= j < i + k ==> s[j] == s[i],
    ensures
        k + run_more(s, i, k) <= MAX_RUN,
        i + k + run_more(s, i, k) <= s.len(),
        forall|j: int| i <= j < i + k + run_more(s, i, k) ==> s[j] == s[i],
    decreases MAX_RUN - k,
{
    if k < MAX_RUN && i + k < s.len() && s[i + k] == s[i] {
        lemma_run_more(s, i, k + 1);
    }
}

/// A literal span stays inside the input and holds 1 to 254 bytes.
pub proof fn lemma_literal_more(s: Seq<u8>, i: int, k: int, threshold: int)
    requires
        0 <= i,
        1 <= k <= MAX_LITERAL,
        i + k <= s.len(),
    ensures
        k + literal_more(s, i, k, threshold) <= MAX_LITERAL,
        i + k + literal_more(s, i, k, threshold) <= s.len(),
    decreases MAX_LITERAL - k,
{
    if k < MAX_LITERAL && i + k < s.len() && run_len(s, i + k) < threshold {
        lemma_literal_more(s, i, k + 1, threshold);
    }
}

/// The shortest run worth a run record at `clevel`.
pub fn threshold_for(clevel: u8) -> (t: usize)
    ensures
        t == run_threshold(clevel),
        2 <= t <= 4,
{
    if 1 <= clevel && clevel <= 3 {
        4
    } else if 7 <= clevel && clevel <= 9 {
        2
    } else {
        3
    }
}

/// Measures the run of identical bytes that starts at `i`.
pub fn measure_run(data: &[u8], i: usize) -> (r: usize)
    requires
        i < data@.len(),
    ensures
        r == run_len(data@, i as int),
        1 <= r <= MAX_RUN,
        i + r <= data@.len(),
{
    let mut r: usize = 1;
    proof {
        lemma_run_more(data@, i as int, 1);
    }
    while r < data.len() - i && r < MAX_RUN && data[i + r] == data[i]
        invariant
            i < data@.len(),
            1 <= r <= MAX_RUN,
            i + r <= data@.len(),
            r + run_more(data@, i as int, r as int) == run_len(data@, i as int),
        decreases MAX_RUN - r,
    {
        r += 1;
    }
    r
}

/// Run-length encodes `data`. Levels 1 to 3 ask for runs of 4 before a run
/// record is written, levels 7 to 9 for runs of 2, every other level for
/// runs of 3.
pub fn compress(data: &[u8], clevel: u8) -> (out: Vec<u8>)
    ensures
        out@ == spec_compress(data@, clevel),
{
    let mut out: Vec<u8> = Vec::new();
    let threshold: usize = threshold_for(clevel);
    let mut i: usize = 0;
    while i < data.len()
        invariant
            i <= data@.len(),
            threshold == run_threshold(clevel),
            out@ + encode_from(data@, i as int, threshold as int) == spec_compress(data@, clevel),
        decreases data@.len() - i,
    {
        let ghost before = out@;
        let run: usize = measure_run(data, i);
        if run >= threshold {
            out.push(TAG_RUN);
            out.push(run as u8);
            out.push(data[i]);
            proof {
                assert(out@ =~= before + seq![TAG_RUN, run as u8, data@[i as int]]);
                assert(out@ + encode_from(data@, i + run, threshold as int) =~= before
                    + encode_from(data@, i as int, threshold as int));
            }
            i += run;
        } else {
            let mut end: usize = i + 1;
            proof {
                lemma_literal_more(data@, i as int, 1, threshold as int);
            }
            while end < data.len() && end - i < MAX_LITERAL && measure_run(data, end) < threshold
                invariant
                    i < end <= data@.len(),
                    end - i <= MAX_LITERAL,
                    (end - i) + literal_more(data@, i as int, end - i, threshold as int)
                        == literal_len(data@, i as int, threshold as int),
                decreases data@.len() - end,
            {
                end += 1;
            }
            let count: usize = end - i;
            out.push(TAG_LITERAL);
            out.push(count as u8);
            append_range(&mut out, data, i, end);
            proof {
                assert(out@ =~= before + (seq![TAG_LITERAL, count as u8] + data@.subrange(
                    i as int,
                    end as int,
                )));
                assert(out@ + encode_from(data@, end as int, threshold as int) =~= before
                    + encode_from(data@, i as int, threshold as int));
            }
            i = end;
        }
    }
    proof {
        assert(encode_from(data@, i as int, threshold as int) =~= Seq::<u8>::empty());
        assert(out@ =~= out@ + Seq::<u8>::empty());
    }
    out
}

} // verus!
