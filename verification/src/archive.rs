//! The archive container: the bytes of one archive file and its entry table.
//!
//! The file is an 8-byte magic, the sealed blobs, the index and a 14-byte
//! footer. Every change of the entry table rewrites the index and the footer
//! behind the last blob and ends the file there.

use vstd::prelude::*;
use vstd::utf8::encode_utf8;
use crate::bytes::{append_all, resized, set_len};
use crate::encrypt::{bytes_result_view, secret_view, spec_encryption_key, spec_seal, NONCE_LEN};
use crate::error::ShokoError;
use crate::index::lemma_reopen;
use crate::laws::{
    lemma_blob_stays, lemma_find_other_path, lemma_find_prefix, lemma_find_unique,
    lemma_max_end_bounds, lemma_parse_index_fails, lemma_repacked_fails,
    lemma_rewritten_well_formed, lemma_without_path, lemma_written_same_keys,
    lemma_written_unique, lemma_written_well_formed,
};
use crate::layout::{
    header_magic, spec_extract, spec_find, spec_index_bytes, spec_index_end, spec_index_fits,
    spec_max_end, spec_next_offset, spec_open, spec_packed, spec_parse_index, spec_repacked,
    spec_rewritten, spec_same_keys, spec_stored_size, spec_trailer, spec_well_formed,
    spec_write_result, spec_written_entries, unique_paths, without_path, HEADER_LEN,
};
use crate::read::{spec_footer_info, spec_record, EntryView, ShokoReader};
use crate::write::{spec_processed, ShokoWriter, MAX_U32};

verus! {

/// One named blob: where its stored bytes lie and how they were packed.
#[derive(Debug)]
pub struct ShokoEntry {
    /// Slash-separated name, the key of the entry.
    pub path: String,
    /// Length of the stored bytes, after compression and sealing.
    pub size: u64,
    /// Where the stored bytes start in the file.
    pub offset: u64,
    /// 0 for stored raw, anything else for run-length encoded.
    pub compression_level: u8,
}

impl View for ShokoEntry {
    type V = EntryView;

    open spec fn view(&self) -> EntryView {
        EntryView {
            path: self.path@,
            size: self.size,
            offset: self.offset,
            compression_level: self.compression_level,
        }
    }
}

impl ShokoEntry {
    /// A copy of the entry.
    pub fn duplicate(&self) -> (copy: Self)
        ensures
            copy@ == self@,
    {
        ShokoEntry {
            path: self.path.clone(),
            size: self.size,
            offset: self.offset,
            compression_level: self.compression_level,
        }
    }
}

/// The views of a sequence of entries.
pub open spec fn entry_views(entries: Seq<ShokoEntry>) -> Seq<EntryView> {
    entries.map_values(|e: ShokoEntry| e@)
}

/// The bytes of an archive file and its entry table.
#[derive(Debug)]
pub struct ShokoArchive {
    /// All bytes of the archive file.
    pub file: Vec<u8>,
    /// The entries, in the order of the index.
    pub entries: Vec<ShokoEntry>,
    /// The configured secret, checked whenever a blob is sealed or opened.
    pub secret: Option<Vec<u8>>,
}

/// Where the next blob goes, or `InvalidData` where an entry's end is
/// beyond what an `u64` holds.
pub fn next_offset(entries: &Vec<ShokoEntry>) -> (res: Result<u64, ShokoError>)
    ensures
        match res {
            Ok(at) => at == spec_next_offset(entry_views(entries@)),
            Err(e) => e == ShokoError::InvalidData && spec_next_offset(entry_views(entries@))
                > u64::MAX,
        },
{
    if entries.len() == 0 {
        return Ok(HEADER_LEN);
    }
    let ghost views = entry_views(entries@);
    let mut largest: u64 = 0;
    let mut i: usize = 0;
    while i < entries.len()
        invariant
            i <= entries@.len(),
            views == entry_views(entries@),
            largest == spec_max_end(views.take(i as int)),
        decreases entries@.len() - i,
    {
        let offset: u64 = entries[i].offset;
        let size: u64 = entries[i].size;
        proof {
            assert(views.take(i + 1).drop_last() =~= views.take(i as int));
            assert(views.take(i + 1).last() == views[i as int]);
        }
        if size > u64::MAX - offset {
            proof {
                lemma_max_end_bounds(views, i as int);
            }
            return Err(ShokoError::InvalidData);
        }
        if offset + size > largest {
            largest = offset + size;
        }
        i += 1;
    }
    proof {
        assert(views.take(i as int) =~= views);
    }
    Ok(largest)
}

/// The entries whose path is not `path`, copied in their order.
pub fn retain_other(entries: &Vec<ShokoEntry>, path: &String) -> (kept: Vec<ShokoEntry>)
    ensures
        entry_views(kept@) == without_path(entry_views(entries@), path@),
{
    let ghost views = entry_views(entries@);
    let mut kept: Vec<ShokoEntry> = Vec::new();
    let mut i: usize = 0;
    proof {
        assert(entry_views(kept@) =~= without_path(views.take(0), path@));
    }
    while i < entries.len()
        invariant
            i <= entries@.len(),
            views == entry_views(entries@),
            entry_views(kept@) == without_path(views.take(i as int), path@),
        decreases entries@.len() - i,
    {
        proof {
            assert(views.take(i + 1).drop_last() =~= views.take(i as int));
            assert(views.take(i + 1).last() == views[i as int]);
        }
        if entries[i].path != *path {
            let ghost before = kept@;
            kept.push(entries[i].duplicate());
            proof {
                assert(entry_views(kept@) =~= entry_views(before).push(views[i as int]));
            }
        }
        i += 1;
    }
    proof {
        assert(views.take(i as int) =~= views);
    }
    kept
}

/// Index and footer for `entries` at `index_start`, or `InvalidInput` where
/// the index cannot say their number or the length of a path.
pub fn build_trailer(entries: &Vec<ShokoEntry>, index_start: u64) -> (res: Result<
    Vec<u8>,
    ShokoError,
>)
    ensures
        if spec_index_fits(entry_views(entries@)) {
            res.is_ok() && res.unwrap()@ == spec_trailer(entry_views(entries@), index_start)
        } else {
            res == Err::<Vec<u8>, ShokoError>(ShokoError::InvalidInput)
        },
{
    let ghost views = entry_views(entries@);
    if entries.len() > MAX_U32 {
        return Err(ShokoError::InvalidInput);
    }
    let mut writer = ShokoWriter::new(Vec::new());
    let mut i: usize = 0;
    while i < entries.len()
        invariant
            i <= entries@.len(),
            views == entry_views(entries@),
            writer.handle@ == spec_index_bytes(views.take(i as int)),
            forall|k: int| 0 <= k < i ==> encode_utf8((#[trigger] views[k]).path).len() <= MAX_U32,
        decreases entries@.len() - i,
    {
        proof {
            assert(views.take(i + 1).drop_last() =~= views.take(i as int));
            assert(views.take(i + 1).last() == views[i as int]);
        }
        let entry = &entries[i];
        match writer.write_index_entry(
            entry.path.as_str(),
            entry.size,
            entry.offset,
            entry.compression_level,
        ) {
            Ok(()) => {},
            Err(e) => {
                assert(encode_utf8(views[i as int].path).len() > MAX_U32);
                return Err(ShokoError::InvalidInput);
            },
        }
        i += 1;
    }
    proof {
        assert(views.take(i as int) =~= views);
    }
    writer.finalize(index_start, entries.len() as u32);
    Ok(writer.into_inner())
}

impl ShokoArchive {
    /// The views of the entries, in their order.
    pub open spec fn spec_entries(&self) -> Seq<EntryView> {
        entry_views(self.entries@)
    }

    /// Whether the archive is laid out as its operations leave it: the file
    /// starts with the magic, no two entries have the same path, and every
    /// blob lies behind the magic and inside the file.
    pub open spec fn well_formed(&self) -> bool {
        spec_well_formed(self.file@, self.spec_entries())
    }

    /// A fresh archive: the magic and no entries.
    pub fn create(secret: Option<Vec<u8>>) -> (archive: Self)
        ensures
            archive.file@ == header_magic(),
            archive.entries@.len() == 0,
            archive.secret == secret,
            archive.well_formed(),
    {
        let mut file: Vec<u8> = Vec::new();
        file.push(0x53u8);
        file.push(0x48u8);
        file.push(0x4fu8);
        file.push(0x4bu8);
        file.push(0x4fu8);
        file.push(0x30u8);
        file.push(0x30u8);
        file.push(0x31u8);
        assert(file@ =~= header_magic());
        assert(file@.subrange(0, HEADER_LEN as int) =~= header_magic());
        Self { file, entries: Vec::new(), secret }
    }

    /// Opens the bytes of an archive file: reads the footer, then the index
    /// it points to.
    ///
    /// A file without a valid footer opens with no entries, whatever it
    /// holds: a caller that expects entries has to look at their number. An
    /// index that leaves the file is `UnexpectedEof`.
    pub fn open(file: Vec<u8>, secret: Option<Vec<u8>>) -> (res: Result<Self, ShokoError>)
        ensures
            match spec_open(file@) {
                Ok(entries) => {
                    &&& res.is_ok()
                    &&& res.unwrap().file@ == file@
                    &&& res.unwrap().spec_entries() == entries
                    &&& res.unwrap().secret == secret
                },
                Err(e) => res matches Err(err) && err == e,
            },
    {
        let mut entries: Vec<ShokoEntry> = Vec::new();
        let mut reader = ShokoReader::new(file.as_slice());
        let ghost bytes = file@;
        match reader.get_footer_info() {
            Err(_) => {
                assert(entry_views(entries@) =~= Seq::<EntryView>::empty());
            },
            Ok((index_start, entry_count)) => {
                if entry_count > 0 && index_start > usize::MAX as u64 {
                    proof {
                        assert(spec_parse_index(bytes, index_start as int, 1).is_none());
                        lemma_parse_index_fails(bytes, index_start as int, 1, entry_count as nat);
                    }
                    return Err(ShokoError::UnexpectedEof);
                }
                if entry_count > 0 {
                    reader.seek(index_start as usize);
                }
                let mut done: u32 = 0;
                proof {
                    assert(entry_views(entries@) =~= Seq::<EntryView>::empty());
                }
                while done < entry_count
                    invariant
                        done <= entry_count,
                        reader.handle@ == bytes,
                        bytes == file@,
                        spec_footer_info(bytes) == Ok::<(u64, u32), ShokoError>(
                            (index_start, entry_count),
                        ),
                        entry_count > 0 ==> reader.pos == spec_index_end(
                            bytes,
                            index_start as int,
                            done as nat,
                        ),
                        spec_parse_index(bytes, index_start as int, done as nat) == Some(
                            entry_views(entries@),
                        ),
                    decreases entry_count - done,
                {
                    let ghost before = entry_views(entries@);
                    let ghost at = reader.pos as int;
                    match reader.read_index_entry() {
                        Err(e) => {
                            proof {
                                assert(spec_parse_index(
                                    bytes,
                                    index_start as int,
                                    (done + 1) as nat,
                                ).is_none());
                                lemma_parse_index_fails(
                                    bytes,
                                    index_start as int,
                                    (done + 1) as nat,
                                    entry_count as nat,
                                );
                            }
                            return Err(ShokoError::UnexpectedEof);
                        },
                        Ok((path, size, offset, clevel)) => {
                            entries.push(ShokoEntry { path, size, offset, compression_level: clevel });
                        },
                    }
                    done += 1;
                    proof {
                        assert(entry_views(entries@) =~= before.push(spec_record(bytes, at)));
                    }
                }
            },
        }
        Ok(Self { file, entries, secret })
    }

    /// Writes index and footer behind the last blob and ends the file
    /// there. On failure the archive is as before.
    pub fn rewrite_index(&mut self) -> (res: Result<(), ShokoError>)
        ensures
            final(self).entries == old(self).entries,
            final(self).secret == old(self).secret,
            match spec_rewritten(old(self).file@, old(self).spec_entries()) {
                Ok(bytes) => res.is_ok() && final(self).file@ == bytes,
                Err(e) => res == Err::<(), ShokoError>(e) && final(self).file@ == old(self).file@,
            },
            res.is_ok() ==> spec_open(final(self).file@) == Ok::<Seq<EntryView>, ShokoError>(
                final(self).spec_entries(),
            ),
            res.is_ok() && old(self).well_formed() ==> final(self).well_formed(),
    {
        let index_start = match next_offset(&self.entries) {
            Ok(at) => at,
            Err(e) => {
                return Err(e);
            },
        };
        if index_start > usize::MAX as u64 {
            return Err(ShokoError::InvalidData);
        }
        let trailer = match build_trailer(&self.entries, index_start) {
            Ok(bytes) => bytes,
            Err(e) => {
                return Err(e);
            },
        };
        set_len(&mut self.file, index_start as usize);
        append_all(&mut self.file, trailer.as_slice());
        proof {
            lemma_reopen(
                resized(old(self).file@, index_start as int),
                self.spec_entries(),
            );
            if old(self).well_formed() {
                lemma_rewritten_well_formed(old(self).file@, self.spec_entries(), trailer@);
            }
        }
        Ok(())
    }

    /// Stores `content` under `internal_path`: the sealed blob goes behind
    /// the last blob, an older entry of the same path leaves the table, the
    /// new entry joins its end, and index and footer are rewritten behind
    /// the new blob. The bytes of a replaced blob stay where they are.
    ///
    /// On failure the archive is as before. The nonce of the blob is random;
    /// whatever it is, extracting the path afterwards gives `content`.
    pub fn write_file_direct(&mut self, internal_path: &str, content: &[u8], clevel: u8) -> (res:
        Result<(), ShokoError>)
        ensures
            final(self).secret == old(self).secret,
            res.is_err() ==> final(self).file@ == old(self).file@ && final(self).entries == old(
                self,
            ).entries,
            res == spec_write_result(
                old(self).spec_entries(),
                secret_view(old(self).secret),
                internal_path@,
                content@,
                clevel,
            ),
            res.is_ok() ==> {
                let offset = spec_next_offset(old(self).spec_entries());
                let size = spec_stored_size(content@, clevel);
                let blob = final(self).file@.subrange(offset, offset + size);
                &&& final(self).spec_entries() == spec_written_entries(
                    old(self).spec_entries(),
                    internal_path@,
                    content@,
                    clevel,
                )
                &&& final(self).file@.len() == offset + size + spec_trailer(
                    final(self).spec_entries(),
                    (offset + size) as u64,
                ).len()
                &&& final(self).file@ == resized(old(self).file@, offset) + blob + spec_trailer(
                    final(self).spec_entries(),
                    (offset + size) as u64,
                )
                &&& spec_seal(
                    spec_encryption_key(secret_view(old(self).secret)).unwrap(),
                    blob.subrange(0, NONCE_LEN as int),
                    spec_processed(content@, clevel),
                ) == Ok::<Seq<u8>, ShokoError>(blob)
                &&& spec_next_offset(final(self).spec_entries()) == offset + size
                &&& spec_open(final(self).file@) == Ok::<Seq<EntryView>, ShokoError>(
                    final(self).spec_entries(),
                )
                &&& unique_paths(old(self).spec_entries()) ==> unique_paths(
                    final(self).spec_entries(),
                )
                &&& old(self).well_formed() ==> final(self).well_formed()
                &&& spec_packed(final(self).file@, final(self).spec_entries())
                &&& spec_extract(
                    final(self).file@,
                    final(self).spec_entries(),
                    secret_view(final(self).secret),
                    internal_path@,
                ) == Ok::<Seq<u8>, ShokoError>(content@)
                &&& offset <= old(self).file@.len() ==> (forall|other: Seq<char>|
                    other != internal_path@ ==> #[trigger] spec_extract(
                        final(self).file@,
                        final(self).spec_entries(),
                        secret_view(final(self).secret),
                        other,
                    ) == spec_extract(
                        old(self).file@,
                        old(self).spec_entries(),
                        secret_view(old(self).secret),
                        other,
                    ))
            },
    {
        let ghost old_views = self.spec_entries();
        let data_offset = match next_offset(&self.entries) {
            Ok(at) => at,
            Err(e) => {
                return Err(e);
            },
        };
        if data_offset > usize::MAX as u64 {
            return Err(ShokoError::InvalidData);
        }
        let mut writer = ShokoWriter::new(Vec::new());
        let size = match writer.write_blob(&self.secret, content, clevel) {
            Ok(n) => n,
            Err(e) => {
                return Err(e);
            },
        };
        if size > (usize::MAX as u64) - data_offset {
            return Err(ShokoError::InvalidData);
        }
        let wanted: String = internal_path.to_owned();
        let mut kept = retain_other(&self.entries, &wanted);
        let ghost kept_views = entry_views(kept@);
        kept.push(ShokoEntry { path: wanted, size, offset: data_offset, compression_level: clevel });
        let ghost entry = EntryView {
            path: internal_path@,
            size,
            offset: data_offset,
            compression_level: clevel,
        };
        proof {
            assert(entry_views(kept@) =~= kept_views.push(entry));
            assert(kept_views.push(entry).drop_last() =~= kept_views);
            lemma_without_path(old_views, internal_path@);
        }
        let trailer = match build_trailer(&kept, data_offset + size) {
            Ok(bytes) => bytes,
            Err(e) => {
                return Err(e);
            },
        };
        let blob = writer.into_inner();
        set_len(&mut self.file, data_offset as usize);
        append_all(&mut self.file, blob.as_slice());
        append_all(&mut self.file, trailer.as_slice());
        self.entries = kept;
        proof {
            assert(blob@ =~= Seq::<u8>::empty() + blob@);
            assert(blob@.skip(0) =~= blob@);
            assert(self.file@.subrange(data_offset as int, data_offset + size) =~= blob@);
            let head = resized(old(self).file@, data_offset as int) + blob@;
            let secret = secret_view(self.secret);
            lemma_reopen(head, self.spec_entries());
            assert(self.file@ =~= head + spec_trailer(
                self.spec_entries(),
                (data_offset + size) as u64,
            ));
            if unique_paths(old_views) {
                lemma_written_unique(old_views, internal_path@, content@, clevel);
            }
            if old(self).well_formed() {
                lemma_written_well_formed(
                    old(self).file@,
                    old_views,
                    internal_path@,
                    content@,
                    clevel,
                    blob@,
                    trailer@,
                );
            }
            assert(self.file@.skip(data_offset + size) =~= trailer@);
            if data_offset <= old(self).file@.len() {
                assert forall|other: Seq<char>| other != internal_path@ implies #[trigger] spec_extract(
                    self.file@,
                    self.spec_entries(),
                    secret,
                    other,
                ) == spec_extract(old(self).file@, old_views, secret, other) by {
                    lemma_find_other_path(old_views, internal_path@, other);
                    assert(self.file@.subrange(0, data_offset as int) =~= old(self).file@.subrange(
                        0,
                        data_offset as int,
                    ));
                    lemma_blob_stays(old(self).file@, self.file@, old_views, secret, other);
                }
            }
        }
        Ok(())
    }

    /// Compacts the archive: every entry's content is extracted and written
    /// into a fresh archive, in the order of the index and with its path and
    /// level, and the fresh archive's bytes and entry table take the place
    /// of the old ones. Bytes that no entry refers to are gone afterwards.
    ///
    /// On failure the archive is as before.
    pub fn defrag(&mut self) -> (res: Result<(), ShokoError>)
        ensures
            final(self).secret == old(self).secret,
            match spec_repacked(
                old(self).file@,
                old(self).spec_entries(),
                secret_view(old(self).secret),
                old(self).entries@.len(),
            ) {
                Err(e) => {
                    &&& res == Err::<(), ShokoError>(e)
                    &&& final(self).file@ == old(self).file@
                    &&& final(self).entries == old(self).entries
                },
                Ok(packed) => {
                    &&& res.is_ok()
                    &&& final(self).spec_entries() == packed
                    &&& spec_packed(final(self).file@, packed)
                    &&& final(self).well_formed()
                    &&& unique_paths(old(self).spec_entries()) ==> spec_same_keys(
                        packed,
                        old(self).spec_entries(),
                        old(self).entries@.len() as int,
                    )
                    &&& spec_open(final(self).file@) == Ok::<Seq<EntryView>, ShokoError>(packed)
                    &&& (forall|k: int|
                        0 <= k < old(self).entries@.len() ==> spec_extract(
                            final(self).file@,
                            packed,
                            secret_view(final(self).secret),
                            (#[trigger] old(self).spec_entries()[k]).path,
                        ) == spec_extract(
                            old(self).file@,
                            old(self).spec_entries(),
                            secret_view(old(self).secret),
                            old(self).spec_entries()[k].path,
                        ))
                },
            },
    {
        let mut packed = ShokoArchive::create(copy_secret(&self.secret));
        let ghost views = self.spec_entries();
        let ghost secret = secret_view(self.secret);
        let mut i: usize = 0;
        proof {
            assert(packed.spec_entries() =~= Seq::<EntryView>::empty());
        }
        while i < self.entries.len()
            invariant
                i <= self.entries@.len(),
                *self == *old(self),
                views == self.spec_entries(),
                secret == secret_view(self.secret),
                secret == secret_view(packed.secret),
                spec_repacked(self.file@, views, secret, i as nat) == Ok::<
                    Seq<EntryView>,
                    ShokoError,
                >(packed.spec_entries()),
                spec_packed(packed.file@, packed.spec_entries()),
                packed.well_formed(),
                unique_paths(views) ==> spec_same_keys(packed.spec_entries(), views, i as int),
                forall|k: int|
                    0 <= k < i ==> spec_extract(
                        packed.file@,
                        packed.spec_entries(),
                        secret,
                        (#[trigger] views[k]).path,
                    ) == spec_extract(self.file@, views, secret, views[k].path),
            decreases self.entries@.len() - i,
        {
            let path = &self.entries[i].path;
            let ghost total = self.entries@.len() as nat;
            let ghost before = packed;
            proof {
                assert(views[i as int].path == path@);
            }
            match find_entry(&self.entries, path) {
                None => {
                    proof {
                        lemma_repacked_fails(self.file@, views, secret, (i + 1) as nat, total);
                    }
                    return Err(ShokoError::NotFound);
                },
                Some(j) => {
                    let source = &self.entries[j];
                    let reader = ShokoReader::new(self.file.as_slice());
                    let data = match reader.read_blob(
                        &self.secret,
                        source.offset,
                        source.size,
                        source.compression_level,
                    ) {
                        Ok(bytes) => bytes,
                        Err(e) => {
                            proof {
                                lemma_repacked_fails(
                                    self.file@,
                                    views,
                                    secret,
                                    (i + 1) as nat,
                                    total,
                                );
                            }
                            return Err(e);
                        },
                    };
                    match packed.write_file_direct(
                        path.as_str(),
                        data.as_slice(),
                        source.compression_level,
                    ) {
                        Ok(()) => {},
                        Err(e) => {
                            proof {
                                lemma_repacked_fails(
                                    self.file@,
                                    views,
                                    secret,
                                    (i + 1) as nat,
                                    total,
                                );
                            }
                            return Err(e);
                        },
                    }
                    proof {
                        if unique_paths(views) {
                            lemma_find_unique(views, i as int);
                            lemma_written_same_keys(
                                before.spec_entries(),
                                views,
                                i as int,
                                data@,
                            );
                        }
                        assert forall|k: int| 0 <= k < i + 1 implies spec_extract(
                            packed.file@,
                            packed.spec_entries(),
                            secret,
                            (#[trigger] views[k]).path,
                        ) == spec_extract(self.file@, views, secret, views[k].path) by {
                            if views[k].path != path@ {
                                assert(spec_extract(
                                    packed.file@,
                                    packed.spec_entries(),
                                    secret_view(packed.secret),
                                    views[k].path,
                                ) == spec_extract(
                                    before.file@,
                                    before.spec_entries(),
                                    secret_view(before.secret),
                                    views[k].path,
                                ));
                            }
                        }
                    }
                },
            }
            i += 1;
        }
        proof {
            let entries = packed.spec_entries();
            if entries.len() == 0 {
                assert(entries =~= Seq::<EntryView>::empty());
            } else {
                let cut = spec_next_offset(entries);
                lemma_reopen(packed.file@.subrange(0, cut), entries);
                assert(packed.file@ =~= packed.file@.subrange(0, cut) + packed.file@.skip(cut));
            }
        }
        self.file = packed.file;
        self.entries = packed.entries;
        Ok(())
    }

    /// Reads the blob of the first entry with the path `internal_path`.
    pub fn extract_file(&self, internal_path: &str) -> (res: Result<Vec<u8>, ShokoError>)
        ensures
            bytes_result_view(res) == spec_extract(
                self.file@,
                self.spec_entries(),
                secret_view(self.secret),
                internal_path@,
            ),
    {
        let wanted: String = internal_path.to_owned();
        match find_entry(&self.entries, &wanted) {
            None => Err(ShokoError::NotFound),
            Some(i) => {
                let entry = &self.entries[i];
                let reader = ShokoReader::new(self.file.as_slice());
                reader.read_blob(&self.secret, entry.offset, entry.size, entry.compression_level)
            },
        }
    }
}

/// A copy of a configured secret.
pub fn copy_secret(secret: &Option<Vec<u8>>) -> (copy: Option<Vec<u8>>)
    ensures
        secret_view(copy) == secret_view(*secret),
{
    match secret {
        None => None,
        Some(bytes) => {
            let mut copy: Vec<u8> = Vec::new();
            append_all(&mut copy, bytes.as_slice());
            assert(copy@ =~= bytes@);
            Some(copy)
        },
    }
}

/// The position of the first entry with the path `path`.
pub fn find_entry(entries: &Vec<ShokoEntry>, path: &String) -> (res: Option<usize>)
    ensures
        match res {
            Some(i) => i < entries@.len() && spec_find(entry_views(entries@), path@) == Some(
                entries@[i as int]@,
            ),
            None => spec_find(entry_views(entries@), path@).is_none(),
        },
{
    let ghost views = entry_views(entries@);
    let mut i: usize = 0;
    while i < entries.len()
        invariant
            i <= entries@.len(),
            views == entry_views(entries@),
            spec_find(views.take(i as int), path@).is_none(),
        decreases entries@.len() - i,
    {
        proof {
            assert(views.take(i + 1).drop_last() =~= views.take(i as int));
            assert(views.take(i + 1).last() == views[i as int]);
        }
        if entries[i].path == *path {
            proof {
                lemma_find_prefix(views, i + 1, path@);
            }
            return Some(i);
        }
        i += 1;
    }
    proof {
        assert(views.take(i as int) =~= views);
    }
    None
}

} // verus!
