//! What is written as index and footer is what opening the file reads.

use vstd::prelude::*;
use vstd::bytes::{
    lemma_auto_spec_u32_to_from_le_bytes, lemma_auto_spec_u64_to_from_le_bytes,
    spec_u32_to_le_bytes, spec_u64_to_le_bytes,
};
use vstd::utf8::{encode_utf8, encode_utf8_decode_utf8, encode_utf8_valid_utf8};
use crate::layout::{
    spec_index_bytes, spec_index_end, spec_index_fits, spec_open, spec_parse_index, spec_trailer,
};
use crate::error::ShokoError;
use crate::read::{
    spec_footer_info, spec_path_len, spec_record, spec_record_end, spec_record_fits, EntryView,
    RECORD_FIXED_LEN,
};
use crate::write::{footer_magic, spec_footer, spec_index_entry, FOOTER_LEN, MAX_U32};

verus! {

/// The index record of an entry, as it is written.
pub open spec fn spec_entry_record(e: EntryView) -> Seq<u8> {
    spec_index_entry(e.path, e.size, e.offset, e.compression_level)
}

/// An index record is 21 bytes and the bytes of its path.
pub proof fn lemma_record_len(e: EntryView)
    ensures
        spec_entry_record(e).len() == RECORD_FIXED_LEN + encode_utf8(e.path).len(),
{
    lemma_auto_spec_u32_to_from_le_bytes();
    lemma_auto_spec_u64_to_from_le_bytes();
}

/// A footer is 14 bytes.
pub proof fn lemma_footer_len(index_start: u64, entry_count: u32)
    ensures
        spec_footer(index_start, entry_count).len() == FOOTER_LEN,
{
    lemma_auto_spec_u32_to_from_le_bytes();
    lemma_auto_spec_u64_to_from_le_bytes();
}

/// Where the record of an entry stands in a file, the entry is read from
/// it, provided its path is short enough for the length field.
pub proof fn lemma_record_round_trip(file: Seq<u8>, at: int, e: EntryView)
    requires
        0 <= at,
        encode_utf8(e.path).len() <= MAX_U32,
        at + spec_entry_record(e).len() <= file.len(),
        file.subrange(at, at + spec_entry_record(e).len()) == spec_entry_record(e),
    ensures
        spec_record_fits(file, at),
        spec_record_end(file, at) == at + spec_entry_record(e).len(),
        spec_record(file, at) == e,
{
    let rec = spec_entry_record(e);
    let p = encode_utf8(e.path);
    let n = p.len() as int;
    lemma_auto_spec_u32_to_from_le_bytes();
    lemma_auto_spec_u64_to_from_le_bytes();
    encode_utf8_valid_utf8(e.path);
    encode_utf8_decode_utf8(e.path);
    lemma_record_len(e);
    let whole = file.subrange(at, at + rec.len());
    assert(file.subrange(at, at + 4) =~= whole.subrange(0, 4));
    assert(rec.subrange(0, 4) =~= spec_u32_to_le_bytes(n as u32));
    assert(spec_path_len(file, at) == n);
    let path_end = at + 4 + n;
    assert(file.subrange(at + 4, path_end) =~= whole.subrange(4, 4 + n));
    assert(rec.subrange(4, 4 + n) =~= p);
    assert(file.subrange(path_end, path_end + 8) =~= whole.subrange(4 + n, 12 + n));
    assert(rec.subrange(4 + n, 12 + n) =~= spec_u64_to_le_bytes(e.size));
    assert(file.subrange(path_end + 8, path_end + 16) =~= whole.subrange(12 + n, 20 + n));
    assert(rec.subrange(12 + n, 20 + n) =~= spec_u64_to_le_bytes(e.offset));
    assert(file[path_end + 16] == whole[20 + n]);
    assert(rec[20 + n] == e.compression_level);
}

/// Where the records of entries stand one behind the other in a file, the
/// entries are read from it in their order.
pub proof fn lemma_index_round_trip(file: Seq<u8>, pos: int, entries: Seq<EntryView>)
    requires
        0 <= pos,
        forall|i: int|
            0 <= i < entries.len() ==> encode_utf8((#[trigger] entries[i]).path).len() <= MAX_U32,
        pos + spec_index_bytes(entries).len() <= file.len(),
        file.subrange(pos, pos + spec_index_bytes(entries).len()) == spec_index_bytes(entries),
    ensures
        spec_parse_index(file, pos, entries.len()) == Some(entries),
        spec_index_end(file, pos, entries.len()) == pos + spec_index_bytes(entries).len(),
    decreases entries.len(),
{
    if entries.len() == 0 {
        assert(entries =~= Seq::<EntryView>::empty());
    } else {
        let front = entries.drop_last();
        let last = entries.last();
        let head = spec_index_bytes(front);
        let rec = spec_entry_record(last);
        let all = spec_index_bytes(entries);
        assert(all == head + rec);
        let whole = file.subrange(pos, pos + all.len());
        assert(file.subrange(pos, pos + head.len()) =~= whole.subrange(0, head.len() as int));
        assert(all.subrange(0, head.len() as int) =~= head);
        assert forall|i: int| 0 <= i < front.len() implies encode_utf8(
            (#[trigger] front[i]).path,
        ).len() <= MAX_U32 by {
            assert(front[i] == entries[i]);
        }
        lemma_index_round_trip(file, pos, front);
        let at = pos + head.len();
        assert(file.subrange(at, at + rec.len()) =~= whole.subrange(
            head.len() as int,
            all.len() as int,
        ));
        assert(all.subrange(head.len() as int, all.len() as int) =~= rec);
        assert(entries[entries.len() - 1] == last);
        lemma_record_round_trip(file, at, last);
        assert(front.push(last) =~= entries);
    }
}

/// Discovery of the index: a file that ends in the index and footer
/// written for an entry table opens with that entry table, whatever bytes
/// stand in front of the index.
pub proof fn lemma_reopen(prefix: Seq<u8>, entries: Seq<EntryView>)
    requires
        prefix.len() <= u64::MAX,
        spec_index_fits(entries),
    ensures
        spec_open(prefix + spec_trailer(entries, prefix.len() as u64)) == Ok::<
            Seq<EntryView>,
            ShokoError,
        >(entries),
        spec_footer_info(prefix + spec_trailer(entries, prefix.len() as u64)) == Ok::<
            (u64, u32),
            ShokoError,
        >((prefix.len() as u64, entries.len() as u32)),
{
    let index_start = prefix.len() as u64;
    let count = entries.len() as u32;
    let index = spec_index_bytes(entries);
    let footer = spec_footer(index_start, count);
    let file = prefix + spec_trailer(entries, index_start);
    lemma_auto_spec_u32_to_from_le_bytes();
    lemma_auto_spec_u64_to_from_le_bytes();
    lemma_footer_len(index_start, count);
    let at = file.len() - FOOTER_LEN;
    assert(at == prefix.len() + index.len());
    assert(file.subrange(at, at + 8) =~= spec_u64_to_le_bytes(index_start));
    assert(file.subrange(at + 8, at + 12) =~= spec_u32_to_le_bytes(count));
    assert(file.subrange(at + 12, at + 14) =~= footer_magic());
    assert(file.subrange(prefix.len() as int, at) =~= index);
    lemma_index_round_trip(file, prefix.len() as int, entries);
}

} // verus!
