//! The running tally: a counter for each file seen so far.

use crate::code_file::{counted_view, CodeFile, FileCount};
use crate::commit::{entry_views, DetailFetch, DiffEntry};
use crate::ranking::{lemma_ranking_properties, ranking};
use crate::sorting::sort_by_count_descending;
use crate::tally::{
    bump, bump_all, count_of, has_name, is_tally, lemma_bump_names, lemma_count_of_bump_all,
    lemma_count_of_row, lemma_occurrences_add, lemma_occurrences_push, occurrences,
};
use vstd::hash_map::StringHashMap;
use vstd::prelude::*;

verus! {

/// The files seen so far, each with the number of entries that named it, in the order in
/// which the files were first seen. A file is found by its path through a hash map.
pub struct Aggregate {
    rows: Vec<(CodeFile, u32)>,
    index: StringHashMap<usize>,
}

impl View for Aggregate {
    type V = Seq<FileCount>;

    closed spec fn view(&self) -> Seq<FileCount> {
        counted_view(self.rows@)
    }
}

impl Aggregate {
    /// The hash map knows the paths of the rows, and for each the place of its row.
    pub closed spec fn indexed(&self) -> bool {
        &&& forall|name: Seq<char>| #[trigger]
            self.index@.contains_key(name) <==> has_name(self@, name)
        &&& forall|name: Seq<char>| #[trigger]
            self.index@.contains_key(name) ==> 0 <= self.index@[name] < self@.len()
                && self@[self.index@[name] as int].file.filename == name
    }

    /// One row for a file, no row without a count, and every row can be found.
    pub open spec fn wf(&self) -> bool {
        is_tally(self@) && self.indexed()
    }

    /// An aggregate that has seen nothing.
    pub fn new() -> (fresh: Aggregate)
        ensures
            fresh.wf(),
            fresh@ == Seq::<FileCount>::empty(),
    {
        Aggregate { rows: Vec::new(), index: StringHashMap::new() }
    }

    /// The number of files seen.
    pub fn len(&self) -> (n: usize)
        ensures
            n == self@.len(),
    {
        self.rows.len()
    }

    /// Counts one entry: the row of its file counts one more, and a file seen for the first
    /// time gets a row that holds this entry's locator.
    pub fn record(&mut self, entry: &DiffEntry)
        requires
            old(self).wf(),
            count_of(old(self)@, entry@.filename) < u32::MAX,
        ensures
            final(self).wf(),
            final(self)@ == bump(old(self)@, entry@),
    {
        let found = match self.index.get(entry.filename.as_str()) {
            Some(place) => Some(*place),
            None => None,
        };
        match found {
            Some(i) => {
                let count: u32 = self.rows[i].1;
                proof {
                    lemma_count_of_row(old(self)@, i as int);
                }
                self.rows[i].1 = count + 1;
            },
            None => {
                let place: usize = self.rows.len();
                self.index.insert(entry.filename.clone(), place);
                self.rows.push((entry.code_file(), 1));
            },
        }
        proof {
            assert(self@ =~= bump(old(self)@, entry@));
            assert forall|name: Seq<char>|
                has_name(self@, name) <==> has_name(old(self)@, name) || name
                    == entry@.filename by {
                lemma_bump_names(old(self)@, entry@, name);
            }
        }
    }

    /// Counts the entries of one commit. A commit whose record could not be had, or whose
    /// record lists no files, leaves the aggregate as it is.
    pub fn record_commit(&mut self, fetch: &DetailFetch)
        requires
            old(self).wf(),
            forall|name: Seq<char>|
                count_of(old(self)@, name) + occurrences(fetch.entries(), name) <= u32::MAX,
        ensures
            final(self).wf(),
            final(self)@ == bump_all(old(self)@, fetch.entries()),
    {
        match fetch {
            DetailFetch::Fetched(detail) => {
                match &detail.files {
                    Some(files) => {
                        let ghost entries = entry_views(files@);
                        assert(fetch.entries() == entries);
                        let mut j: usize = 0;
                        while j < files.len()
                            invariant
                                j <= files.len(),
                                entries == entry_views(files@),
                                old(self).wf(),
                                self.wf(),
                                self@ == bump_all(old(self)@, entries.take(j as int)),
                                forall|name: Seq<char>|
                                    count_of(old(self)@, name) + occurrences(entries, name)
                                        <= u32::MAX,
                            decreases files.len() - j,
                        {
                            let ghost seen = entries.take(j as int);
                            let ghost name = entries[j as int].filename;
                            proof {
                                assert(entries.take(j + 1) == seen.push(entries[j as int]));
                                assert(entries.take(j + 1).drop_last() == seen);
                                assert(entries == entries.take(j + 1) + entries.skip(j + 1));
                                lemma_count_of_bump_all(old(self)@, seen, name);
                                lemma_occurrences_push(seen, entries[j as int], name);
                                lemma_occurrences_add(
                                    entries.take(j + 1),
                                    entries.skip(j + 1),
                                    name,
                                );
                            }
                            self.record(&files[j]);
                            j += 1;
                        }
                        assert(entries.take(files.len() as int) == entries);
                    },
                    None => {},
                }
            },
            DetailFetch::Failed => {},
        }
    }

    /// The `limit` files with the greatest counts, greatest first, or all files where there
    /// are fewer. Files with equal counts stand in the order in which they were first seen.
    pub fn ranked(self, limit: usize) -> (top: Vec<(CodeFile, u32)>)
        ensures
            counted_view(top@) == ranking(self@, limit as nat),
            top@.len() == if limit < self@.len() {
                limit as nat
            } else {
                self@.len()
            },
            forall|i: int, j: int| 0 <= i < j < top@.len() ==> top@[i].1 >= top@[j].1,
            self.wf() ==> forall|i: int| 0 <= i < top@.len() ==> top@[i].1 >= 1,
    {
        let mut top = sort_by_count_descending(self.rows);
        top.truncate(limit);
        proof {
            lemma_ranking_properties(self@, limit as nat);
            let ranked = counted_view(top@);
            assert(ranked =~= ranking(self@, limit as nat));
            assert forall|i: int, j: int| 0 <= i < j < top@.len() implies top@[i].1
                >= top@[j].1 by {
                assert(ranked[i].count >= ranked[j].count);
            }
            if self.wf() {
                assert forall|i: int| 0 <= i < top@.len() implies top@[i].1 >= 1 by {
                    assert(self@.contains(ranked[i]));
                }
            }
        }
        top
    }
}

} // verus!
