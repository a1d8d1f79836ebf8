//! Writing side of the container: sealed blobs, index records and the footer.
//!
//! All integers are little-endian. An index record is the path's length in
//! bytes as `u32`, the path, the stored size and the offset as `u64`, and the
//! compression level. The footer is the index's offset as `u64`, the number
//! of records as `u32`, and the two bytes `SK`.

use vstd::prelude::*;
use vstd::bytes::{spec_u32_to_le_bytes, spec_u64_to_le_bytes, u32_to_le_bytes, u64_to_le_bytes};
use vstd::utf8::encode_utf8;
use crate::bytes::append_all;
use crate::compress::{compress, spec_compress};
use crate::decompress::{lemma_decompress_compress, spec_decompress};
use crate::encrypt::{
    encrypt_data, secret_view, spec_decrypt_data, spec_encryption_key, spec_seal, MAX_PLAINTEXT,
    NONCE_LEN, TAG_LEN,
};
use crate::error::ShokoError;

verus! {

/// Length of the footer that ends every archive.
pub const FOOTER_LEN: usize = 14;

/// Longest path, in bytes, and largest number of records that the index's
/// `u32` fields can hold.
pub const MAX_U32: usize = 0xffff_ffff;

/// The two bytes that end the footer: `SK`.
pub open spec fn footer_magic() -> Seq<u8> {
    seq![0x53u8, 0x4bu8]
}

/// The bytes that go through the cipher for a payload: the payload itself at
/// level 0, its run-length encoding at any other level.
pub open spec fn spec_processed(data: Seq<u8>, level: u8) -> Seq<u8> {
    if level > 0 {
        spec_compress(data, level)
    } else {
        data
    }
}

/// What reading a sealed blob back gives: it is opened under the secret and,
/// at a level other than 0, run-length decoded.
pub open spec fn spec_open_blob(secret: Option<Seq<u8>>, blob: Seq<u8>, level: u8) -> Result<
    Seq<u8>,
    ShokoError,
> {
    match spec_decrypt_data(secret, blob) {
        Err(e) => Err(e),
        Ok(plain) => if level > 0 {
            match spec_decompress(plain) {
                Some(data) => Ok(data),
                None => Err(ShokoError::InvalidData),
            }
        } else {
            Ok(plain)
        },
    }
}

/// The index record of one entry.
pub open spec fn spec_index_entry(path: Seq<char>, size: u64, offset: u64, level: u8) -> Seq<u8> {
    spec_u32_to_le_bytes(encode_utf8(path).len() as u32) + encode_utf8(path)
        + spec_u64_to_le_bytes(size) + spec_u64_to_le_bytes(offset) + seq![level]
}

/// The footer for an index at `index_start` with `entry_count` records.
pub open spec fn spec_footer(index_start: u64, entry_count: u32) -> Seq<u8> {
    spec_u64_to_le_bytes(index_start) + spec_u32_to_le_bytes(entry_count) + footer_magic()
}

/// Collects the bytes that are written from one position of the archive on.
pub struct ShokoWriter {
    /// The bytes written so far; the write position is their end.
    pub handle: Vec<u8>,
}

impl ShokoWriter {
    /// A writer that goes on after the bytes of `handle`.
    pub fn new(handle: Vec<u8>) -> (writer: Self)
        ensures
            writer.handle@ == handle@,
    {
        Self { handle }
    }

    /// Compresses `data` where `clevel` is above 0, seals it under the
    /// secret and appends the sealed blob. Returns the blob's length.
    ///
    /// On failure nothing is written: a missing secret is
    /// `PermissionDenied`, one of the wrong length `InvalidInput`, a payload
    /// beyond the cipher's limit `InvalidData`. The nonce is random, so the
    /// blob is fixed up to its first 12 bytes; read back under the same
    /// secret and level it gives `data`.
    pub fn write_blob(&mut self, secret: &Option<Vec<u8>>, data: &[u8], clevel: u8) -> (res: Result<
        u64,
        ShokoError,
    >)
        ensures
            match spec_encryption_key(secret_view(*secret)) {
                Err(e) => res == Err::<u64, ShokoError>(e) && final(self).handle@ == old(
                    self,
                ).handle@,
                Ok(key) => if spec_processed(data@, clevel).len() <= MAX_PLAINTEXT {
                    let start = old(self).handle@.len() as int;
                    let blob = final(self).handle@.skip(start);
                    &&& res.is_ok()
                    &&& res.unwrap() == NONCE_LEN + spec_processed(data@, clevel).len() + TAG_LEN
                    &&& final(self).handle@ == old(self).handle@ + blob
                    &&& blob.len() == res.unwrap()
                    &&& spec_seal(
                        key,
                        blob.subrange(0, NONCE_LEN as int),
                        spec_processed(data@, clevel),
                    ) == Ok::<Seq<u8>, ShokoError>(blob)
                    &&& spec_open_blob(secret_view(*secret), blob, clevel) == Ok::<
                        Seq<u8>,
                        ShokoError,
                    >(data@)
                } else {
                    res == Err::<u64, ShokoError>(ShokoError::InvalidData) && final(self).handle@
                        == old(self).handle@
                },
            },
    {
        let sealed = if clevel > 0 {
            let packed = compress(data, clevel);
            encrypt_data(secret, packed.as_slice())
        } else {
            encrypt_data(secret, data)
        };
        match sealed {
            Err(e) => Err(e),
            Ok(blob) => {
                append_all(&mut self.handle, blob.as_slice());
                proof {
                    lemma_decompress_compress(data@, clevel);
                    assert(self.handle@.skip(old(self).handle@.len() as int) =~= blob@);
                }
                Ok(blob.len() as u64)
            },
        }
    }

    /// Appends the index record of one entry. A path longer than the
    /// record's `u32` length field can say is `InvalidInput`, and nothing is
    /// written.
    pub fn write_index_entry(&mut self, path: &str, size: u64, offset: u64, clevel: u8) -> (res:
        Result<(), ShokoError>)
        ensures
            if encode_utf8(path@).len() <= MAX_U32 {
                res.is_ok() && final(self).handle@ == old(self).handle@ + spec_index_entry(
                    path@,
                    size,
                    offset,
                    clevel,
                )
            } else {
                res == Err::<(), ShokoError>(ShokoError::InvalidInput) && final(self).handle@
                    == old(self).handle@
            },
    {
        let path_bytes = path.as_bytes();
        if path_bytes.len() > MAX_U32 {
            return Err(ShokoError::InvalidInput);
        }
        let len_bytes = u32_to_le_bytes(path_bytes.len() as u32);
        let size_bytes = u64_to_le_bytes(size);
        let offset_bytes = u64_to_le_bytes(offset);
        append_all(&mut self.handle, len_bytes.as_slice());
        append_all(&mut self.handle, path_bytes);
        append_all(&mut self.handle, size_bytes.as_slice());
        append_all(&mut self.handle, offset_bytes.as_slice());
        self.handle.push(clevel);
        proof {
            assert(self.handle@ =~= old(self).handle@ + spec_index_entry(
                path@,
                size,
                offset,
                clevel,
            ));
        }
        Ok(())
    }

    /// Appends the footer.
    pub fn finalize(&mut self, index_start: u64, entry_count: u32)
        ensures
            final(self).handle@ == old(self).handle@ + spec_footer(index_start, entry_count),
    {
        let start_bytes = u64_to_le_bytes(index_start);
        let count_bytes = u32_to_le_bytes(entry_count);
        append_all(&mut self.handle, start_bytes.as_slice());
        append_all(&mut self.handle, count_bytes.as_slice());
        self.handle.push(0x53u8);
        self.handle.push(0x4bu8);
        proof {
            assert(self.handle@ =~= old(self).handle@ + spec_footer(index_start, entry_count));
        }
    }

    /// The write position: the number of bytes written so far.
    pub fn seek_to_end(&self) -> (pos: u64)
        ensures
            pos == self.handle@.len(),
    {
        self.handle.len() as u64
    }

    /// Gives the written bytes back.
    pub fn into_inner(self) -> (bytes: Vec<u8>)
        ensures
            bytes@ == self.handle@,
    {
        self.handle
    }
}

} // verus!
