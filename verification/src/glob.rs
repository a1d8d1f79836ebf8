//! Selecting entries by a shell-style pattern.

use vstd::prelude::*;
use crate::archive::{entry_views, ShokoArchive};
use crate::error::ShokoError;
use crate::read::EntryView;
use ::glob::Pattern;

verus! {

/// Whether `Pattern::new` of the `glob` crate accepts the pattern.
pub uninterp spec fn glob_pattern_valid(pattern: Seq<char>) -> bool;

/// Whether the compiled pattern matches the path, by `Pattern::matches` of
/// the `glob` crate.
pub uninterp spec fn glob_matches(pattern: Seq<char>, path: Seq<char>) -> bool;

/// Calls `Pattern::new` of the `glob` crate and says whether it accepted
/// the pattern. Taken on trust: the answer is a function of the pattern.
#[verifier::external_body]
fn pattern_is_valid(pattern: &str) -> (ok: bool)
    ensures
        ok == glob_pattern_valid(pattern@),
{
    Pattern::new(pattern).is_ok()
}

/// Calls `Pattern::matches` of the `glob` crate on the compiled pattern.
/// Taken on trust: the answer is a function of pattern and path.
#[verifier::external_body]
fn pattern_matches(pattern: &str, path: &str) -> (hit: bool)
    requires
        glob_pattern_valid(pattern@),
    ensures
        hit == glob_matches(pattern@, path@),
{
    match Pattern::new(pattern) {
        Ok(compiled) => compiled.matches(path),
        Err(_) => false,
    }
}

/// The paths of the entries whose mark in `hits` is set, in their order.
/// Entries without a mark are left out.
pub open spec fn spec_selected(entries: Seq<EntryView>, hits: Seq<bool>) -> Seq<Seq<char>>
    decreases entries.len(),
{
    if entries.len() == 0 {
        Seq::empty()
    } else {
        let front = spec_selected(entries.drop_last(), hits);
        if entries.len() <= hits.len() && hits[entries.len() - 1] {
            front.push(entries.last().path)
        } else {
            front
        }
    }
}

/// For each entry, whether the pattern matches its path.
pub open spec fn spec_hits(entries: Seq<EntryView>, pattern: Seq<char>) -> Seq<bool> {
    Seq::new(entries.len(), |i: int| glob_matches(pattern, entries[i].path))
}

/// The views of a sequence of strings.
pub open spec fn string_views(strings: Seq<String>) -> Seq<Seq<char>> {
    strings.map_values(|s: String| s@)
}

/// Marks that agree on the first `n` entries select the same of them.
pub proof fn lemma_selected_prefix(entries: Seq<EntryView>, a: Seq<bool>, b: Seq<bool>)
    requires
        entries.len() <= a.len(),
        entries.len() <= b.len(),
        forall|i: int| 0 <= i < entries.len() ==> a[i] == b[i],
    ensures
        spec_selected(entries, a) == spec_selected(entries, b),
    decreases entries.len(),
{
    if entries.len() > 0 {
        lemma_selected_prefix(entries.drop_last(), a, b);
    }
}

impl ShokoArchive {
    /// The paths of the entries that are marked in `hits`, in the order of
    /// the index.
    pub fn select_paths(&self, hits: &Vec<bool>) -> (paths: Vec<String>)
        ensures
            string_views(paths@) == spec_selected(self.spec_entries(), hits@),
    {
        let ghost views = self.spec_entries();
        let mut paths: Vec<String> = Vec::new();
        let mut i: usize = 0;
        proof {
            assert(string_views(paths@) =~= spec_selected(views.take(0), hits@));
        }
        while i < self.entries.len()
            invariant
                i <= self.entries@.len(),
                views == entry_views(self.entries@),
                string_views(paths@) == spec_selected(views.take(i as int), hits@),
            decreases self.entries@.len() - i,
        {
            proof {
                assert(views.take(i + 1).drop_last() =~= views.take(i as int));
                assert(views.take(i + 1).last() == views[i as int]);
            }
            if i < hits.len() && hits[i] {
                let ghost before = paths@;
                paths.push(self.entries[i].path.clone());
                proof {
                    assert(string_views(paths@) =~= string_views(before).push(views[i as int].path));
                }
            }
            i += 1;
        }
        proof {
            assert(views.take(i as int) =~= views);
        }
        paths
    }

    /// The paths of the entries that the pattern matches, in the order of
    /// the index. A pattern that does not compile is `InvalidInput`.
    pub fn match_glob(&self, pattern_str: &str) -> (res: Result<Vec<String>, ShokoError>)
        ensures
            match res {
                Ok(paths) => {
                    &&& glob_pattern_valid(pattern_str@)
                    &&& string_views(paths@) == spec_selected(
                        self.spec_entries(),
                        spec_hits(self.spec_entries(), pattern_str@),
                    )
                },
                Err(e) => !glob_pattern_valid(pattern_str@) && e == ShokoError::InvalidInput,
            },
    {
        if !pattern_is_valid(pattern_str) {
            return Err(ShokoError::InvalidInput);
        }
        let ghost views = self.spec_entries();
        let mut hits: Vec<bool> = Vec::new();
        let mut i: usize = 0;
        while i < self.entries.len()
            invariant
                i <= self.entries@.len(),
                views == entry_views(self.entries@),
                glob_pattern_valid(pattern_str@),
                hits@.len() == i,
                forall|k: int|
                    0 <= k < i ==> hits@[k] == glob_matches(pattern_str@, (#[trigger] views[k]).path),
            decreases self.entries@.len() - i,
        {
            hits.push(pattern_matches(pattern_str, self.entries[i].path.as_str()));
            i += 1;
        }
        proof {
            lemma_selected_prefix(views, hits@, spec_hits(views, pattern_str@));
        }
        Ok(self.select_paths(&hits))
    }
}

} // verus!
