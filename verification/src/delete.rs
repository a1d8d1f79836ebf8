//! Removing an entry from the archive.

use vstd::prelude::*;
use crate::archive::{build_trailer, find_entry, next_offset, retain_other, ShokoArchive};
use crate::laws::{
    lemma_blob_stays, lemma_find_other_path, lemma_rewritten_well_formed, lemma_without_path,
    lemma_without_path_unique, lemma_without_path_well_formed,
};
use crate::layout::{
    spec_extract, spec_find, spec_next_offset, spec_open, spec_rewritten, unique_paths,
    without_path,
};
use crate::bytes::{append_all, resized, set_len};
use crate::encrypt::secret_view;
use crate::error::ShokoError;
use crate::index::lemma_reopen;
use crate::read::EntryView;

verus! {

impl ShokoArchive {
    /// Takes every entry with the path `internal_path` out of the table and
    /// rewrites index and footer. The blob's bytes stay in the file until
    /// the archive is compacted, unless they lay behind all other blobs.
    ///
    /// Where no entry has the path the result is `NotFound`. On failure the
    /// archive is as before.
    pub fn delete_file(&mut self, internal_path: &str) -> (res: Result<(), ShokoError>)
        ensures
            final(self).secret == old(self).secret,
            res.is_err() ==> final(self).file@ == old(self).file@ && final(self).entries == old(
                self,
            ).entries,
            match spec_find(old(self).spec_entries(), internal_path@) {
                None => res == Err::<(), ShokoError>(ShokoError::NotFound),
                Some(_) => match spec_rewritten(
                    old(self).file@,
                    without_path(old(self).spec_entries(), internal_path@),
                ) {
                    Ok(bytes) => {
                        &&& res.is_ok()
                        &&& final(self).file@ == bytes
                        &&& final(self).spec_entries() == without_path(
                            old(self).spec_entries(),
                            internal_path@,
                        )
                        &&& final(self).entries@.len() < old(self).entries@.len()
                        &&& spec_open(final(self).file@) == Ok::<Seq<EntryView>, ShokoError>(
                            final(self).spec_entries(),
                        )
                        &&& spec_extract(
                            final(self).file@,
                            final(self).spec_entries(),
                            secret_view(final(self).secret),
                            internal_path@,
                        ) == Err::<Seq<u8>, ShokoError>(ShokoError::NotFound)
                        &&& unique_paths(old(self).spec_entries()) ==> unique_paths(
                            final(self).spec_entries(),
                        )
                        &&& old(self).well_formed() ==> final(self).well_formed()
                        &&& spec_next_offset(old(self).spec_entries()) <= old(self).file@.len()
                            ==> (forall|other: Seq<char>|
                            other != internal_path@ ==> #[trigger] spec_extract(
                                final(self).file@,
                                final(self).spec_entries(),
                                secret_view(final(self).secret),
                                other,
                            ) == spec_extract(
                                old(self).file@,
                                old(self).spec_entries(),
                                secret_view(old(self).secret),
                                other,
                            ))
                    },
                    Err(e) => res == Err::<(), ShokoError>(e),
                },
            },
    {
        let wanted: String = internal_path.to_owned();
        if find_entry(&self.entries, &wanted).is_none() {
            return Err(ShokoError::NotFound);
        }
        let kept = retain_other(&self.entries, &wanted);
        proof {
            lemma_without_path(self.spec_entries(), internal_path@);
        }
        let index_start = match next_offset(&kept) {
            Ok(at) => at,
            Err(e) => {
                return Err(e);
            },
        };
        if index_start > usize::MAX as u64 {
            return Err(ShokoError::InvalidData);
        }
        let trailer = match build_trailer(&kept, index_start) {
            Ok(bytes) => bytes,
            Err(e) => {
                return Err(e);
            },
        };
        set_len(&mut self.file, index_start as usize);
        append_all(&mut self.file, trailer.as_slice());
        self.entries = kept;
        proof {
            let old_views = old(self).spec_entries();
            let views = self.spec_entries();
            let secret = secret_view(self.secret);
            lemma_reopen(resized(old(self).file@, index_start as int), views);
            if unique_paths(old_views) {
                lemma_without_path_unique(old_views, internal_path@);
            }
            if old(self).well_formed() {
                lemma_without_path_well_formed(old(self).file@, old_views, internal_path@);
                lemma_rewritten_well_formed(old(self).file@, views, trailer@);
            }
            if spec_next_offset(old_views) <= old(self).file@.len() {
                assert forall|other: Seq<char>| other != internal_path@ implies #[trigger] spec_extract(
                    self.file@,
                    views,
                    secret,
                    other,
                ) == spec_extract(old(self).file@, old_views, secret, other) by {
                    lemma_find_other_path(old_views, internal_path@, other);
                    if views.len() > 0 {
                        assert(self.file@.subrange(0, index_start as int) =~= old(
                            self,
                        ).file@.subrange(0, index_start as int));
                        lemma_blob_stays(old(self).file@, self.file@, views, secret, other);
                    }
                }
            }
        }
        Ok(())
    }
}

} // verus!
