//! The model of the archive: the entry table as a sequence of entry views,
//! the bytes of the file, and what each operation makes of them.

use vstd::prelude::*;
use vstd::utf8::encode_utf8;
use crate::bytes::resized;
use crate::encrypt::{spec_encryption_key, MAX_PLAINTEXT, NONCE_LEN, TAG_LEN};
use crate::error::ShokoError;
use crate::read::{
    spec_footer_info, spec_read_blob, spec_record, spec_record_end, spec_record_fits, EntryView,
};
use crate::write::{spec_footer, spec_index_entry, spec_processed, MAX_U32};

verus! {

/// Length of the magic that starts every archive.
pub const HEADER_LEN: u64 = 8;

/// The magic that starts every archive: `SHOKO001`.
pub open spec fn header_magic() -> Seq<u8> {
    seq![0x53u8, 0x48u8, 0x4fu8, 0x4bu8, 0x4fu8, 0x30u8, 0x30u8, 0x31u8]
}

/// The largest `offset + size` among the entries, 0 where there is none.
pub open spec fn spec_max_end(entries: Seq<EntryView>) -> int
    decreases entries.len(),
{
    if entries.len() == 0 {
        0
    } else {
        let rest = spec_max_end(entries.drop_last());
        let end = entries.last().offset + entries.last().size;
        if end > rest {
            end
        } else {
            rest
        }
    }
}

/// Where the next blob, or the index, goes: behind the magic in an empty
/// archive, else at the largest `offset + size` of the entries.
pub open spec fn spec_next_offset(entries: Seq<EntryView>) -> int {
    if entries.len() == 0 {
        HEADER_LEN as int
    } else {
        spec_max_end(entries)
    }
}

/// The entries whose path is not `path`, in their order.
pub open spec fn without_path(entries: Seq<EntryView>, path: Seq<char>) -> Seq<EntryView>
    decreases entries.len(),
{
    if entries.len() == 0 {
        Seq::empty()
    } else if entries.last().path == path {
        without_path(entries.drop_last(), path)
    } else {
        without_path(entries.drop_last(), path).push(entries.last())
    }
}

/// The first entry with the path `path`.
pub open spec fn spec_find(entries: Seq<EntryView>, path: Seq<char>) -> Option<EntryView>
    decreases entries.len(),
{
    if entries.len() == 0 {
        None
    } else {
        match spec_find(entries.drop_last(), path) {
            Some(e) => Some(e),
            None => if entries.last().path == path {
                Some(entries.last())
            } else {
                None
            },
        }
    }
}

/// Whether no two entries have the same path.
pub open spec fn unique_paths(entries: Seq<EntryView>) -> bool {
    forall|i: int, j: int|
        0 <= i < j < entries.len() ==> (#[trigger] entries[i]).path != (#[trigger] entries[j]).path
}

/// The index records of the entries, one behind the other.
pub open spec fn spec_index_bytes(entries: Seq<EntryView>) -> Seq<u8>
    decreases entries.len(),
{
    if entries.len() == 0 {
        Seq::empty()
    } else {
        spec_index_bytes(entries.drop_last()) + spec_index_entry(
            entries.last().path,
            entries.last().size,
            entries.last().offset,
            entries.last().compression_level,
        )
    }
}

/// Whether the index can say the number of entries and the length of each
/// path in its `u32` fields.
pub open spec fn spec_index_fits(entries: Seq<EntryView>) -> bool {
    &&& entries.len() <= MAX_U32
    &&& forall|i: int|
        0 <= i < entries.len() ==> encode_utf8((#[trigger] entries[i]).path).len() <= MAX_U32
}

/// Index and footer as they are written at `index_start`.
pub open spec fn spec_trailer(entries: Seq<EntryView>, index_start: u64) -> Seq<u8> {
    spec_index_bytes(entries) + spec_footer(index_start, entries.len() as u32)
}

/// The file after its index was rewritten for `entries`: the old bytes up to
/// the end of the last blob, then index and footer. Blobs that an `u64` or
/// the memory cannot address are `InvalidData`, an index that does not fit
/// its fields is `InvalidInput`.
pub open spec fn spec_rewritten(file: Seq<u8>, entries: Seq<EntryView>) -> Result<
    Seq<u8>,
    ShokoError,
> {
    if spec_next_offset(entries) > usize::MAX {
        Err(ShokoError::InvalidData)
    } else if !spec_index_fits(entries) {
        Err(ShokoError::InvalidInput)
    } else {
        Ok(
            resized(file, spec_next_offset(entries)) + spec_trailer(
                entries,
                spec_next_offset(entries) as u64,
            ),
        )
    }
}

/// The position behind `count` index records that start at `pos`.
pub open spec fn spec_index_end(file: Seq<u8>, pos: int, count: nat) -> int
    decreases count,
{
    if count == 0 {
        pos
    } else {
        spec_record_end(file, spec_index_end(file, pos, (count - 1) as nat))
    }
}

/// `count` index records read one behind the other from `pos` on, or `None`
/// where one of them leaves the file.
pub open spec fn spec_parse_index(file: Seq<u8>, pos: int, count: nat) -> Option<Seq<EntryView>>
    decreases count,
{
    if count == 0 {
        Some(Seq::empty())
    } else {
        let at = spec_index_end(file, pos, (count - 1) as nat);
        match spec_parse_index(file, pos, (count - 1) as nat) {
            None => None,
            Some(front) => if spec_record_fits(file, at) {
                Some(front.push(spec_record(file, at)))
            } else {
                None
            },
        }
    }
}

/// The entry table that opening a file gives. A file without a valid footer
/// opens with no entries; an index that leaves the file is `UnexpectedEof`.
pub open spec fn spec_open(file: Seq<u8>) -> Result<Seq<EntryView>, ShokoError> {
    match spec_footer_info(file) {
        Err(_) => Ok(Seq::empty()),
        Ok(info) => match spec_parse_index(file, info.0 as int, info.1 as nat) {
            Some(entries) => Ok(entries),
            None => Err(ShokoError::UnexpectedEof),
        },
    }
}

/// What extracting `path` gives: `NotFound` where no entry has the path,
/// else the blob of the first such entry, read back.
pub open spec fn spec_extract(
    file: Seq<u8>,
    entries: Seq<EntryView>,
    secret: Option<Seq<u8>>,
    path: Seq<char>,
) -> Result<Seq<u8>, ShokoError> {
    match spec_find(entries, path) {
        None => Err(ShokoError::NotFound),
        Some(e) => spec_read_blob(file, secret, e.offset, e.size, e.compression_level),
    }
}

/// Length of the stored bytes of a payload: nonce, processed payload, tag.
pub open spec fn spec_stored_size(content: Seq<u8>, level: u8) -> int {
    NONCE_LEN + spec_processed(content, level).len() + TAG_LEN
}

/// The entry table after `content` was written under `path`: the entries of
/// other paths in their order, then the new entry.
pub open spec fn spec_written_entries(
    entries: Seq<EntryView>,
    path: Seq<char>,
    content: Seq<u8>,
    level: u8,
) -> Seq<EntryView> {
    without_path(entries, path).push(
        EntryView {
            path,
            size: spec_stored_size(content, level) as u64,
            offset: spec_next_offset(entries) as u64,
            compression_level: level,
        },
    )
}

/// Whether writing `content` under `path` succeeds, and the error if not:
/// blobs that the memory cannot address are `InvalidData`, a missing secret
/// `PermissionDenied`, one of the wrong length `InvalidInput`, a payload
/// beyond the cipher's limit `InvalidData`, an index that does not fit its
/// fields `InvalidInput`.
pub open spec fn spec_write_result(
    entries: Seq<EntryView>,
    secret: Option<Seq<u8>>,
    path: Seq<char>,
    content: Seq<u8>,
    level: u8,
) -> Result<(), ShokoError> {
    if spec_next_offset(entries) > usize::MAX {
        Err(ShokoError::InvalidData)
    } else {
        match spec_encryption_key(secret) {
            Err(e) => Err(e),
            Ok(_) => if spec_processed(content, level).len() > MAX_PLAINTEXT {
                Err(ShokoError::InvalidData)
            } else if spec_next_offset(entries) + spec_stored_size(content, level) > usize::MAX {
                Err(ShokoError::InvalidData)
            } else if !spec_index_fits(spec_written_entries(entries, path, content, level)) {
                Err(ShokoError::InvalidInput)
            } else {
                Ok(())
            },
        }
    }
}

/// Whether a file is as a sequence of writes into a fresh archive leaves
/// it: the magic alone where there is no entry, else all blobs inside the
/// bytes that index and footer follow.
pub open spec fn spec_packed(file: Seq<u8>, entries: Seq<EntryView>) -> bool {
    if entries.len() == 0 {
        file == header_magic()
    } else {
        &&& spec_next_offset(entries) <= u64::MAX
        &&& spec_index_fits(entries)
        &&& file.len() == spec_next_offset(entries) + spec_trailer(
            entries,
            spec_next_offset(entries) as u64,
        ).len()
        &&& file.skip(spec_next_offset(entries)) == spec_trailer(
            entries,
            spec_next_offset(entries) as u64,
        )
    }
}

/// Whether a file and an entry table are laid out as the operations of the
/// archive leave them: the file starts with the magic, no two entries have
/// the same path, and every blob lies behind the magic and inside the file.
pub open spec fn spec_well_formed(file: Seq<u8>, entries: Seq<EntryView>) -> bool {
    &&& file.len() >= HEADER_LEN
    &&& file.subrange(0, HEADER_LEN as int) == header_magic()
    &&& unique_paths(entries)
    &&& spec_next_offset(entries) <= file.len()
    &&& forall|i: int| 0 <= i < entries.len() ==> (#[trigger] entries[i]).offset >= HEADER_LEN
}

/// Whether the blobs lie back to back behind the magic, in the order of the
/// entries: no byte between them belongs to no entry.
pub open spec fn spec_tiled(entries: Seq<EntryView>) -> bool {
    forall|k: int|
        0 <= k < entries.len() ==> (#[trigger] entries[k]).offset == if k == 0 {
            HEADER_LEN as int
        } else {
            entries[k - 1].offset + entries[k - 1].size
        }
}

/// Whether `packed` has the paths and levels of the first `n` of `entries`,
/// in their order, with the blobs back to back.
pub open spec fn spec_same_keys(packed: Seq<EntryView>, entries: Seq<EntryView>, n: int) -> bool {
    &&& packed.len() == n
    &&& n <= entries.len()
    &&& spec_tiled(packed)
    &&& n > 0 ==> spec_next_offset(packed) == packed[n - 1].offset + packed[n - 1].size
    &&& forall|k: int|
        0 <= k < n ==> (#[trigger] packed[k]).path == entries[k].path
            && packed[k].compression_level == entries[k].compression_level
}

/// The entry table of the fresh archive into which the first `k` entries
/// were copied, each under its path with the content and the level that
/// extracting the path gives; or the first error on the way.
pub open spec fn spec_repacked(
    file: Seq<u8>,
    entries: Seq<EntryView>,
    secret: Option<Seq<u8>>,
    k: nat,
) -> Result<Seq<EntryView>, ShokoError>
    decreases k,
{
    if k == 0 || k > entries.len() {
        Ok(Seq::empty())
    } else {
        match spec_repacked(file, entries, secret, (k - 1) as nat) {
            Err(e) => Err(e),
            Ok(packed) => match spec_find(entries, entries[k - 1].path) {
                None => Err(ShokoError::NotFound),
                Some(source) => match spec_read_blob(
                    file,
                    secret,
                    source.offset,
                    source.size,
                    source.compression_level,
                ) {
                    Err(e) => Err(e),
                    Ok(content) => match spec_write_result(
                        packed,
                        secret,
                        entries[k - 1].path,
                        content,
                        source.compression_level,
                    ) {
                        Err(e) => Err(e),
                        Ok(_) => Ok(
                            spec_written_entries(
                                packed,
                                entries[k - 1].path,
                                content,
                                source.compression_level,
                            ),
                        ),
                    },
                },
            },
        }
    }
}

} // verus!
