//! Reading side of the container: sealed blobs, index records and the footer.

use vstd::prelude::*;
use vstd::bytes::{
    spec_u32_from_le_bytes, spec_u64_from_le_bytes, u32_from_le_bytes, u64_from_le_bytes,
};
use vstd::slice::slice_subrange;
use vstd::utf8::{decode_utf8, valid_utf8};
use crate::decompress::decompress;
use crate::encrypt::{bytes_result_view, decrypt_data, secret_view};
use crate::error::ShokoError;
use crate::write::{footer_magic, spec_open_blob, FOOTER_LEN};

verus! {

/// Bytes of an index record besides its path: the path's length, the stored
/// size, the offset and the level.
pub const RECORD_FIXED_LEN: usize = 21;

/// The text that `String::from_utf8_lossy` makes of bytes: their UTF-8
/// decoding, with a replacement character for what is not valid UTF-8.
pub uninterp spec fn utf8_lossy(bytes: Seq<u8>) -> Seq<char>;

/// The text read from the bytes of a path: their decoding where they are
/// valid UTF-8, else what the lenient conversion makes of them.
pub open spec fn spec_path_text(bytes: Seq<u8>) -> Seq<char> {
    if valid_utf8(bytes) {
        decode_utf8(bytes)
    } else {
        utf8_lossy(bytes)
    }
}

/// Calls `String::from_utf8_lossy` and owns the result. Taken on trust: for
/// valid UTF-8 the text is the decoding of the bytes, and for other bytes
/// it is a function of them.
#[verifier::external_body]
fn string_from_utf8_lossy(bytes: &[u8]) -> (text: String)
    ensures
        valid_utf8(bytes@) ==> text@ == decode_utf8(bytes@),
        !valid_utf8(bytes@) ==> text@ == utf8_lossy(bytes@),
{
    String::from_utf8_lossy(bytes).into_owned()
}

/// What an index record holds.
pub struct EntryView {
    pub path: Seq<char>,
    pub size: u64,
    pub offset: u64,
    pub compression_level: u8,
}

/// What reading the blob at `offset` of `size` bytes gives: a range that
/// leaves the file is `UnexpectedEof`; else the bytes are opened and, at a
/// level other than 0, decoded.
pub open spec fn spec_read_blob(
    file: Seq<u8>,
    secret: Option<Seq<u8>>,
    offset: u64,
    size: u64,
    level: u8,
) -> Result<Seq<u8>, ShokoError> {
    if offset + size > file.len() {
        Err(ShokoError::UnexpectedEof)
    } else {
        spec_open_blob(secret, file.subrange(offset as int, offset + size), level)
    }
}

/// The length in bytes of the path of the record at `pos`, if the length
/// field lies inside the file.
pub open spec fn spec_path_len(file: Seq<u8>, pos: int) -> int {
    spec_u32_from_le_bytes(file.subrange(pos, pos + 4)) as int
}

/// Whether a whole index record lies at `pos` inside the file.
pub open spec fn spec_record_fits(file: Seq<u8>, pos: int) -> bool {
    &&& 0 <= pos
    &&& pos + 4 <= file.len()
    &&& pos + RECORD_FIXED_LEN + spec_path_len(file, pos) <= file.len()
}

/// The position behind the index record at `pos`.
pub open spec fn spec_record_end(file: Seq<u8>, pos: int) -> int {
    pos + RECORD_FIXED_LEN + spec_path_len(file, pos)
}

/// The index record at `pos`, its path decoded leniently.
pub open spec fn spec_record(file: Seq<u8>, pos: int) -> EntryView {
    let path_end = pos + 4 + spec_path_len(file, pos);
    EntryView {
        path: spec_path_text(file.subrange(pos + 4, path_end)),
        size: spec_u64_from_le_bytes(file.subrange(path_end, path_end + 8)),
        offset: spec_u64_from_le_bytes(file.subrange(path_end + 8, path_end + 16)),
        compression_level: file[path_end + 16],
    }
}

/// What the footer of a file says: where the index starts and how many
/// records it has. A file shorter than a footer is `InvalidInput`, one that
/// does not end in `SK` is `InvalidData`.
pub open spec fn spec_footer_info(file: Seq<u8>) -> Result<(u64, u32), ShokoError> {
    if file.len() < FOOTER_LEN {
        Err(ShokoError::InvalidInput)
    } else {
        let at = file.len() - FOOTER_LEN;
        if file.subrange(at + 12, at + 14) != footer_magic() {
            Err(ShokoError::InvalidData)
        } else {
            Ok(
                (
                    spec_u64_from_le_bytes(file.subrange(at, at + 8)),
                    spec_u32_from_le_bytes(file.subrange(at + 8, at + 12)),
                ),
            )
        }
    }
}

/// Reads from the bytes of an archive, with a position for the index.
pub struct ShokoReader<'a> {
    /// All bytes of the archive.
    pub handle: &'a [u8],
    /// Where the next index record is read.
    pub pos: usize,
}

impl<'a> ShokoReader<'a> {
    /// A reader at the start of `handle`.
    pub fn new(handle: &'a [u8]) -> (reader: Self)
        ensures
            reader.handle@ == handle@,
            reader.pos == 0,
    {
        Self { handle, pos: 0 }
    }

    /// Moves the position for the next index record.
    pub fn seek(&mut self, pos: usize)
        ensures
            final(self).handle@ == old(self).handle@,
            final(self).pos == pos,
    {
        self.pos = pos;
    }

    /// Reads the blob of `size` bytes at `offset`, opens it under the secret
    /// and, where `clevel` is above 0, decodes it.
    pub fn read_blob(&self, secret: &Option<Vec<u8>>, offset: u64, size: u64, clevel: u8) -> (res:
        Result<Vec<u8>, ShokoError>)
        ensures
            bytes_result_view(res) == spec_read_blob(
                self.handle@,
                secret_view(*secret),
                offset,
                size,
                clevel,
            ),
    {
        let len: u64 = self.handle.len() as u64;
        if offset > len || size > len - offset {
            return Err(ShokoError::UnexpectedEof);
        }
        let stored = slice_subrange(self.handle, offset as usize, (offset + size) as usize);
        match decrypt_data(secret, stored) {
            Err(e) => Err(e),
            Ok(plain) => {
                if clevel > 0 {
                    decompress(plain.as_slice())
                } else {
                    Ok(plain)
                }
            },
        }
    }

    /// Reads the index record at the position and moves behind it. A record
    /// that leaves the file is `UnexpectedEof`, and the position stays.
    pub fn read_index_entry(&mut self) -> (res: Result<(String, u64, u64, u8), ShokoError>)
        ensures
            final(self).handle@ == old(self).handle@,
            match res {
                Ok(entry) => {
                    let record = spec_record(old(self).handle@, old(self).pos as int);
                    &&& spec_record_fits(old(self).handle@, old(self).pos as int)
                    &&& final(self).pos == spec_record_end(old(self).handle@, old(self).pos as int)
                    &&& entry.0@ == record.path
                    &&& entry.1 == record.size
                    &&& entry.2 == record.offset
                    &&& entry.3 == record.compression_level
                },
                Err(e) => {
                    &&& !spec_record_fits(old(self).handle@, old(self).pos as int)
                    &&& e == ShokoError::UnexpectedEof
                    &&& final(self).pos == old(self).pos
                },
            },
    {
        let len: usize = self.handle.len();
        let pos: usize = self.pos;
        if pos > len || len - pos < 4 {
            return Err(ShokoError::UnexpectedEof);
        }
        let path_len: usize = u32_from_le_bytes(slice_subrange(self.handle, pos, pos + 4)) as usize;
        if len - pos < RECORD_FIXED_LEN || len - pos - RECORD_FIXED_LEN < path_len {
            return Err(ShokoError::UnexpectedEof);
        }
        let path_end: usize = pos + 4 + path_len;
        let path = string_from_utf8_lossy(slice_subrange(self.handle, pos + 4, path_end));
        let size = u64_from_le_bytes(slice_subrange(self.handle, path_end, path_end + 8));
        let offset = u64_from_le_bytes(slice_subrange(self.handle, path_end + 8, path_end + 16));
        let clevel: u8 = self.handle[path_end + 16];
        self.pos = path_end + 17;
        Ok((path, size, offset, clevel))
    }

    /// Reads the footer: where the index starts and how many records it
    /// has.
    pub fn get_footer_info(&self) -> (res: Result<(u64, u32), ShokoError>)
        ensures
            res == spec_footer_info(self.handle@),
    {
        let len: usize = self.handle.len();
        if len < FOOTER_LEN {
            return Err(ShokoError::InvalidInput);
        }
        let at: usize = len - FOOTER_LEN;
        let index_start = u64_from_le_bytes(slice_subrange(self.handle, at, at + 8));
        let entry_count = u32_from_le_bytes(slice_subrange(self.handle, at + 8, at + 12));
        let first: u8 = self.handle[at + 12];
        let second: u8 = self.handle[at + 13];
        let ghost magic = self.handle@.subrange(at + 12, at + 14);
        assert(magic[0] == first && magic[1] == second);
        if first != 0x53u8 || second != 0x4bu8 {
            return Err(ShokoError::InvalidData);
        }
        assert(magic =~= footer_magic());
        Ok((index_start, entry_count))
    }
}

} // verus!
