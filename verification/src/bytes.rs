//! Small helpers on byte vectors.

use vstd::prelude::*;

verus! {

/// Appends `src[from..to]` to `out`.
pub fn append_range(out: &mut Vec<u8>, src: &[u8], from: usize, to: usize)
    requires
        from <= to <= src@.len(),
    ensures
        final(out)@ == old(out)@ + src@.subrange(from as int, to as int),
{
    let mut k: usize = from;
    while k < to
        invariant
            from <= k <= to <= src@.len(),
            out@ == old(out)@ + src@.subrange(from as int, k as int),
        decreases to - k,
    {
        out.push(src[k]);
        k += 1;
        assert(out@ =~= old(out)@ + src@.subrange(from as int, k as int));
    }
}

/// Appends all of `src` to `out`.
pub fn append_all(out: &mut Vec<u8>, src: &[u8])
    ensures
        final(out)@ == old(out)@ + src@,
{
    append_range(out, src, 0, src.len());
    assert(src@.subrange(0, src@.len() as int) =~= src@);
}

/// `s` cut or filled with zero bytes to `len` bytes, as a file is when its
/// length is set.
pub open spec fn resized(s: Seq<u8>, len: int) -> Seq<u8> {
    if len <= s.len() {
        s.subrange(0, len)
    } else {
        s + Seq::new((len - s.len()) as nat, |k: int| 0u8)
    }
}

/// Cuts `buf` to `len` bytes, or fills it with zero bytes up to `len`.
pub fn set_len(buf: &mut Vec<u8>, len: usize)
    ensures
        final(buf)@ == resized(old(buf)@, len as int),
{
    if len <= buf.len() {
        buf.truncate(len);
    } else {
        while buf.len() < len
            invariant
                old(buf)@.len() <= buf@.len() <= len,
                buf@ == old(buf)@ + Seq::new((buf@.len() - old(buf)@.len()) as nat, |k: int| 0u8),
            decreases len - buf@.len(),
        {
            buf.push(0u8);
            assert(buf@ =~= old(buf)@ + Seq::new(
                (buf@.len() - old(buf)@.len()) as nat,
                |k: int| 0u8,
            ));
        }
    }
}

} // verus!
