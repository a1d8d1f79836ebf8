//! Decoding of run-length encoded bytes, and the round trip with the encoder.

use vstd::prelude::*;
use crate::bytes::append_range;
use crate::compress::{
    encode_from, lemma_literal_more, lemma_run_more, literal_len, run_len, run_threshold,
    spec_compress, TAG_LITERAL, TAG_RUN,
};
use crate::error::ShokoError;

verus! {

/// `count` copies of `value`.
pub open spec fn repeat(value: u8, count: int) -> Seq<u8> {
    Seq::new(count as nat, |k: int| value)
}

/// `head` in front of what the rest of a stream decodes to, if it decodes.
pub open spec fn prepend(head: Seq<u8>, rest: Option<Seq<u8>>) -> Option<Seq<u8>> {
    match rest {
        Some(tail) => Some(head + tail),
        None => None,
    }
}

/// What a run-length stream decodes to, or `None` where it is malformed: a
/// tag other than `0x00` and `0x01`, or a record cut short by the end.
pub open spec fn spec_decompress(s: Seq<u8>) -> Option<Seq<u8>>
    decreases s.len(),
{
    if s.len() == 0 {
        Some(Seq::empty())
    } else if s[0] == TAG_RUN {
        if s.len() < 3 {
            None
        } else {
            prepend(repeat(s[2], s[1] as int), spec_decompress(s.skip(3)))
        }
    } else if s[0] == TAG_LITERAL {
        if s.len() < 2 || s.len() < 2 + s[1] {
            None
        } else {
            prepend(s.subrange(2, 2 + s[1]), spec_decompress(s.skip(2 + s[1])))
        }
    } else {
        None
    }
}

/// Decodes a run-length stream. A malformed stream gives `InvalidData` and
/// nothing of what was decoded before the fault.
pub fn decompress(data: &[u8]) -> (res: Result<Vec<u8>, ShokoError>)
    ensures
        match res {
            Ok(out) => spec_decompress(data@) == Some(out@),
            Err(e) => spec_decompress(data@).is_none() && e == ShokoError::InvalidData,
        },
{
    let mut out: Vec<u8> = Vec::new();
    let mut i: usize = 0;
    proof {
        assert(data@.skip(0) =~= data@);
    }
    while i < data.len()
        invariant
            i <= data@.len(),
            spec_decompress(data@) == prepend(out@, spec_decompress(data@.skip(i as int))),
        decreases data@.len() - i,
    {
        let ghost rest = data@.skip(i as int);
        let ghost before = out@;
        let tag: u8 = data[i];
        assert(rest[0] == tag);
        if tag == TAG_RUN {
            if data.len() - i < 3 {
                return Err(ShokoError::InvalidData);
            }
            let count: u8 = data[i + 1];
            let value: u8 = data[i + 2];
            let mut k: u8 = 0;
            while k < count
                invariant
                    k <= count,
                    out@ == before + repeat(value, k as int),
                decreases count - k,
            {
                out.push(value);
                k += 1;
                assert(out@ =~= before + repeat(value, k as int));
            }
            proof {
                assert(rest[1] == count && rest[2] == value);
                assert(rest.skip(3) =~= data@.skip(i + 3));
                lemma_prepend_assoc(before, repeat(value, count as int), spec_decompress(rest.skip(3)));
            }
            i += 3;
        } else if tag == TAG_LITERAL {
            if data.len() - i < 2 {
                return Err(ShokoError::InvalidData);
            }
            let count: usize = data[i + 1] as usize;
            if data.len() - i - 2 < count {
                return Err(ShokoError::InvalidData);
            }
            append_range(&mut out, data, i + 2, i + 2 + count);
            proof {
                assert(rest[1] == count);
                assert(rest.skip(2 + count) =~= data@.skip(i + 2 + count));
                assert(rest.subrange(2, 2 + count) =~= data@.subrange(i + 2, i + 2 + count));
                lemma_prepend_assoc(before, rest.subrange(2, 2 + count), spec_decompress(rest.skip(2 + count)));
            }
            i += 2 + count;
        } else {
            return Err(ShokoError::InvalidData);
        }
    }
    proof {
        assert(data@.skip(i as int) =~= Seq::<u8>::empty());
        assert(out@ + Seq::<u8>::empty() =~= out@);
    }
    Ok(out)
}

/// Prepending in two steps is prepending the concatenation.
pub proof fn lemma_prepend_assoc(a: Seq<u8>, b: Seq<u8>, rest: Option<Seq<u8>>)
    ensures
        prepend(a, prepend(b, rest)) == prepend(a + b, rest),
{
    match rest {
        Some(tail) => {
            assert(a + (b + tail) =~= (a + b) + tail);
        },
        None => {},
    }
}

/// Decoding the records written for `s` from position `i` on gives back
/// `s` from `i` on, whatever the threshold of at least 1.
pub proof fn lemma_decode_encode_from(s: Seq<u8>, i: int, threshold: int)
    requires
        0 <= i <= s.len(),
    ensures
        spec_decompress(encode_from(s, i, threshold)) == Some(s.skip(i)),
    decreases s.len() - i,
{
    let enc = encode_from(s, i, threshold);
    if i >= s.len() {
        assert(s.skip(i) =~= Seq::<u8>::empty());
    } else if run_len(s, i) >= threshold {
        let r = run_len(s, i);
        lemma_run_more(s, i, 1);
        let tail = encode_from(s, i + r, threshold);
        lemma_decode_encode_from(s, i + r, threshold);
        assert(enc.skip(3) =~= tail);
        assert(enc[0] == TAG_RUN && enc[1] == r as u8 && enc[2] == s[i]);
        assert(repeat(s[i], r) + s.skip(i + r) =~= s.skip(i));
    } else {
        let l = literal_len(s, i, threshold);
        lemma_literal_more(s, i, 1, threshold);
        let tail = encode_from(s, i + l, threshold);
        lemma_decode_encode_from(s, i + l, threshold);
        assert(enc.skip(2 + l) =~= tail);
        assert(enc[0] == TAG_LITERAL && enc[1] == l as u8);
        assert(enc.subrange(2, 2 + l) =~= s.subrange(i, i + l));
        assert(s.subrange(i, i + l) + s.skip(i + l) =~= s.skip(i));
    }
}

/// Round trip of the codec: what `compress` writes for any bytes at any
/// level, `decompress` reads back as those bytes.
pub proof fn lemma_decompress_compress(s: Seq<u8>, level: u8)
    ensures
        spec_decompress(spec_compress(s, level)) == Some(s),
{
    lemma_decode_encode_from(s, 0, run_threshold(level));
    assert(s.skip(0) =~= s);
}

} // verus!
