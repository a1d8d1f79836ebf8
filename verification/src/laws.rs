//! Laws of the entry table and of the file layout, from which the contracts
//! of the archive's operations are proved.

use vstd::prelude::*;
use crate::bytes::resized;
use crate::layout::{
    header_magic, spec_extract, spec_find, spec_max_end, spec_next_offset, spec_parse_index,
    spec_repacked, spec_same_keys, spec_stored_size, spec_well_formed, spec_written_entries,
    unique_paths, without_path, HEADER_LEN,
};
use crate::read::EntryView;

verus! {

/// Once a record leaves the file, reading more records does not help.
pub proof fn lemma_parse_index_fails(file: Seq<u8>, pos: int, done: nat, count: nat)
    requires
        done <= count,
        spec_parse_index(file, pos, done).is_none(),
    ensures
        spec_parse_index(file, pos, count).is_none(),
    decreases count,
{
    if done < count {
        lemma_parse_index_fails(file, pos, done, (count - 1) as nat);
    }
}

/// Copying stops at the first error.
pub proof fn lemma_repacked_fails(
    file: Seq<u8>,
    entries: Seq<EntryView>,
    secret: Option<Seq<u8>>,
    k: nat,
    n: nat,
)
    requires
        k <= n <= entries.len(),
        spec_repacked(file, entries, secret, k).is_err(),
    ensures
        spec_repacked(file, entries, secret, n) == spec_repacked(file, entries, secret, k),
    decreases n,
{
    if k < n {
        lemma_repacked_fails(file, entries, secret, k, (n - 1) as nat);
    }
}

/// What is found has the path and is one of the entries; where nothing is
/// found, no entry has the path.
pub proof fn lemma_find_member(entries: Seq<EntryView>, path: Seq<char>)
    ensures
        match spec_find(entries, path) {
            Some(e) => e.path == path && exists|i: int|
                0 <= i < entries.len() && #[trigger] entries[i] == e,
            None => forall|i: int| 0 <= i < entries.len() ==> (#[trigger] entries[i]).path != path,
        },
    decreases entries.len(),
{
    if entries.len() > 0 {
        let front = entries.drop_last();
        lemma_find_member(front, path);
        match spec_find(front, path) {
            Some(e) => {
                let i = choose|i: int| 0 <= i < front.len() && #[trigger] front[i] == e;
                assert(entries[i] == e);
            },
            None => {
                assert forall|i: int| 0 <= i < entries.len() - 1 implies (
                #[trigger] entries[i]).path != path by {
                    assert(front[i] == entries[i]);
                }
                if entries.last().path == path {
                    assert(entries[entries.len() - 1] == entries.last());
                }
            },
        }
    }
}

/// Taking out the entries of one path does not change what is found under
/// another.
pub proof fn lemma_find_other_path(entries: Seq<EntryView>, path: Seq<char>, other: Seq<char>)
    requires
        other != path,
    ensures
        spec_find(without_path(entries, path), other) == spec_find(entries, other),
    decreases entries.len(),
{
    if entries.len() > 0 {
        let front = entries.drop_last();
        lemma_find_other_path(front, path, other);
        if entries.last().path != path {
            assert(without_path(front, path).push(entries.last()).drop_last() =~= without_path(
                front,
                path,
            ));
        }
    }
}

/// Taking out the entries of one path keeps the others' paths distinct.
pub proof fn lemma_without_path_unique(entries: Seq<EntryView>, path: Seq<char>)
    requires
        unique_paths(entries),
    ensures
        unique_paths(without_path(entries, path)),
        forall|i: int|
            0 <= i < without_path(entries, path).len() ==> (#[trigger] without_path(
                entries,
                path,
            )[i]).path != path,
    decreases entries.len(),
{
    if entries.len() > 0 {
        let front = entries.drop_last();
        assert forall|i: int, j: int| 0 <= i < j < front.len() implies (#[trigger] front[i]).path != (
        #[trigger] front[j]).path by {
            assert(front[i] == entries[i] && front[j] == entries[j]);
        }
        lemma_without_path_unique(front, path);
        lemma_without_path(front, path);
        let kept = without_path(front, path);
        if entries.last().path != path {
            let all = kept.push(entries.last());
            assert forall|i: int, j: int| 0 <= i < j < all.len() implies (#[trigger] all[i]).path != (
            #[trigger] all[j]).path by {
                if j == kept.len() {
                    assert(front.contains(kept[i]));
                    let k = choose|k: int| 0 <= k < front.len() && front[k] == kept[i];
                    assert(entries[k] == kept[i]);
                    assert(entries[entries.len() - 1] == entries.last());
                }
            }
        }
    }
}

/// An entry table with distinct paths stays so when a path is written.
pub proof fn lemma_written_unique(
    entries: Seq<EntryView>,
    path: Seq<char>,
    content: Seq<u8>,
    level: u8,
)
    requires
        unique_paths(entries),
    ensures
        unique_paths(spec_written_entries(entries, path, content, level)),
{
    lemma_without_path_unique(entries, path);
}

/// Two files that agree up to the end of the last blob give the same
/// content for every path.
pub proof fn lemma_blob_stays(
    old_file: Seq<u8>,
    new_file: Seq<u8>,
    entries: Seq<EntryView>,
    secret: Option<Seq<u8>>,
    path: Seq<char>,
)
    requires
        spec_next_offset(entries) <= old_file.len(),
        spec_next_offset(entries) <= new_file.len(),
        new_file.subrange(0, spec_next_offset(entries)) == old_file.subrange(
            0,
            spec_next_offset(entries),
        ),
    ensures
        spec_extract(new_file, entries, secret, path) == spec_extract(
            old_file,
            entries,
            secret,
            path,
        ),
{
    lemma_find_member(entries, path);
    match spec_find(entries, path) {
        Some(e) => {
            let cut = spec_next_offset(entries);
            let i = choose|i: int| 0 <= i < entries.len() && #[trigger] entries[i] == e;
            lemma_max_end_bounds(entries, i);
            assert forall|j: int| 0 <= j < cut implies new_file[j] == old_file[j] by {
                assert(new_file.subrange(0, cut)[j] == old_file.subrange(0, cut)[j]);
            }
            assert(new_file.subrange(e.offset as int, e.offset + e.size) =~= old_file.subrange(
                e.offset as int,
                e.offset + e.size,
            ));
        },
        None => {},
    }
}

/// Where no two entries have the same path, each is the one found under
/// its path.
pub proof fn lemma_find_unique(entries: Seq<EntryView>, i: int)
    requires
        unique_paths(entries),
        0 <= i < entries.len(),
    ensures
        spec_find(entries, entries[i].path) == Some(entries[i]),
{
    lemma_find_member(entries, entries[i].path);
}

/// Writing a path that the table does not hold yet into a table whose blobs
/// lie back to back appends one entry and keeps the blobs back to back.
pub proof fn lemma_written_same_keys(
    packed: Seq<EntryView>,
    entries: Seq<EntryView>,
    i: int,
    content: Seq<u8>,
)
    requires
        unique_paths(entries),
        0 <= i < entries.len(),
        spec_same_keys(packed, entries, i),
        spec_next_offset(packed) + spec_stored_size(content, entries[i].compression_level)
            <= u64::MAX,
    ensures
        spec_same_keys(
            spec_written_entries(packed, entries[i].path, content, entries[i].compression_level),
            entries,
            i + 1,
        ),
{
    let path = entries[i].path;
    let later = spec_written_entries(packed, path, content, entries[i].compression_level);
    assert forall|k: int| 0 <= k < packed.len() implies (#[trigger] packed[k]).path != path by {
        assert(packed[k].path == entries[k].path);
    }
    lemma_find_member(packed, path);
    lemma_without_path(packed, path);
    assert(later.drop_last() =~= packed);
    if packed.len() > 0 {
        lemma_max_end_bounds(packed, 0);
    }
    assert forall|k: int| 0 <= k < later.len() implies (#[trigger] later[k]).offset == if k == 0 {
        HEADER_LEN as int
    } else {
        later[k - 1].offset + later[k - 1].size
    } by {
        if k < packed.len() {
            assert(later[k] == packed[k]);
            if k > 0 {
                assert(later[k - 1] == packed[k - 1]);
            }
        }
    }
    assert forall|k: int| 0 <= k < i + 1 implies (#[trigger] later[k]).path == entries[k].path
        && later[k].compression_level == entries[k].compression_level by {
        if k < i {
            assert(later[k] == packed[k]);
        }
    }
}

/// Writing a path keeps a well-laid-out archive well laid out, whatever
/// bytes the blob holds: `file` is the old file, `blob` and `trailer` what
/// is written behind its last blob.
pub proof fn lemma_written_well_formed(
    file: Seq<u8>,
    entries: Seq<EntryView>,
    path: Seq<char>,
    content: Seq<u8>,
    level: u8,
    blob: Seq<u8>,
    trailer: Seq<u8>,
)
    requires
        spec_well_formed(file, entries),
        blob.len() == spec_stored_size(content, level),
        spec_next_offset(entries) + blob.len() <= u64::MAX,
    ensures
        spec_well_formed(
            resized(file, spec_next_offset(entries)) + blob + trailer,
            spec_written_entries(entries, path, content, level),
        ),
        spec_next_offset(spec_written_entries(entries, path, content, level)) == spec_next_offset(
            entries,
        ) + blob.len(),
{
    let offset = spec_next_offset(entries);
    let later = spec_written_entries(entries, path, content, level);
    let kept = without_path(entries, path);
    let after = resized(file, offset) + blob + trailer;
    lemma_written_unique(entries, path, content, level);
    lemma_without_path(entries, path);
    assert(later.drop_last() =~= kept);
    if entries.len() > 0 {
        lemma_max_end_bounds(entries, 0);
    }
    assert(after.subrange(0, HEADER_LEN as int) =~= file.subrange(0, HEADER_LEN as int));
    assert forall|i: int| 0 <= i < later.len() implies (#[trigger] later[i]).offset
        >= HEADER_LEN by {
        if i < kept.len() {
            assert(later[i] == kept[i]);
            assert(entries.contains(kept[i]));
        }
    }
}

/// Rewriting the index behind the last blob of a table with distinct paths
/// and blobs behind the magic gives a well-laid-out archive.
pub proof fn lemma_rewritten_well_formed(file: Seq<u8>, entries: Seq<EntryView>, trailer: Seq<u8>)
    requires
        file.len() >= HEADER_LEN,
        file.subrange(0, HEADER_LEN as int) == header_magic(),
        unique_paths(entries),
        forall|i: int| 0 <= i < entries.len() ==> (#[trigger] entries[i]).offset >= HEADER_LEN,
    ensures
        spec_well_formed(resized(file, spec_next_offset(entries)) + trailer, entries),
{
    let after = resized(file, spec_next_offset(entries)) + trailer;
    if entries.len() > 0 {
        lemma_max_end_bounds(entries, 0);
    }
    assert(after.subrange(0, HEADER_LEN as int) =~= file.subrange(0, HEADER_LEN as int));
}

/// Taking out the entries of one path leaves a table with distinct paths
/// and blobs behind the magic as such a table.
pub proof fn lemma_without_path_well_formed(
    file: Seq<u8>,
    entries: Seq<EntryView>,
    path: Seq<char>,
)
    requires
        spec_well_formed(file, entries),
    ensures
        unique_paths(without_path(entries, path)),
        forall|i: int|
            0 <= i < without_path(entries, path).len() ==> (#[trigger] without_path(
                entries,
                path,
            )[i]).offset >= HEADER_LEN,
{
    lemma_without_path_unique(entries, path);
    lemma_without_path(entries, path);
    let kept = without_path(entries, path);
    assert forall|i: int| 0 <= i < kept.len() implies (#[trigger] kept[i]).offset
        >= HEADER_LEN by {
        assert(entries.contains(kept[i]));
    }
}

/// No entry ends behind the largest end.
pub proof fn lemma_max_end_bounds(entries: Seq<EntryView>, i: int)
    requires
        0 <= i < entries.len(),
    ensures
        entries[i].offset + entries[i].size <= spec_max_end(entries),
        0 <= spec_max_end(entries),
    decreases entries.len(),
{
    if entries.len() > 0 {
        if i < entries.len() - 1 {
            lemma_max_end_bounds(entries.drop_last(), i);
        } else if entries.len() > 1 {
            lemma_max_end_bounds(entries.drop_last(), 0);
        }
    }
}

/// Taking entries out does not move the largest end up, and what is left
/// does not have the path.
pub proof fn lemma_without_path(entries: Seq<EntryView>, path: Seq<char>)
    ensures
        spec_max_end(without_path(entries, path)) <= spec_max_end(entries),
        0 <= spec_max_end(without_path(entries, path)),
        without_path(entries, path).len() <= entries.len(),
        spec_find(without_path(entries, path), path).is_none(),
        forall|i: int|
            0 <= i < without_path(entries, path).len() ==> entries.contains(
                #[trigger] without_path(entries, path)[i],
            ),
        spec_find(entries, path).is_none() ==> without_path(entries, path) == entries,
        spec_find(entries, path).is_some() ==> without_path(entries, path).len() < entries.len(),
    decreases entries.len(),
{
    if entries.len() > 0 {
        let front = entries.drop_last();
        lemma_without_path(front, path);
        let kept = without_path(front, path);
        assert forall|i: int| 0 <= i < without_path(entries, path).len() implies entries.contains(
            #[trigger] without_path(entries, path)[i],
        ) by {
            if i < kept.len() {
                let k = choose|k: int| 0 <= k < front.len() && front[k] == kept[i];
                assert(entries[k] == kept[i]);
            } else {
                assert(entries[entries.len() - 1] == entries.last());
            }
        }
        if entries.last().path != path {
            assert(kept.push(entries.last()).drop_last() =~= kept);
            if spec_find(entries, path).is_none() {
                assert(front.push(entries.last()) =~= entries);
            }
        }
    }
}

/// What is found among the first `k` entries is found among all of them.
pub proof fn lemma_find_prefix(entries: Seq<EntryView>, k: int, path: Seq<char>)
    requires
        0 <= k <= entries.len(),
        spec_find(entries.take(k), path).is_some(),
    ensures
        spec_find(entries, path) == spec_find(entries.take(k), path),
    decreases entries.len() - k,
{
    if k < entries.len() {
        assert(entries.take(k + 1).drop_last() =~= entries.take(k));
        lemma_find_prefix(entries, k + 1, path);
    } else {
        assert(entries.take(k) =~= entries);
    }
}

} // verus!
