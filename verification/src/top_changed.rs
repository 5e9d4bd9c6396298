//! The files changed most often in a window of commits.

use crate::aggregate::Aggregate;
use crate::code_file::{counted_view, CodeFile, FileCount, FileView};
use crate::commit::{
    lemma_failed_fetch_adds_nothing, lemma_window_entries_add, window_entries, CommitWindow,
    DetailFetch, ProviderError,
};
use crate::ranking::{lemma_ranking_properties, ranking};
use crate::tally::{
    count_of, distinct_files, lemma_occurrences_add, lemma_same_path_collapses, lemma_tally_add,
    lemma_tally_counts_occurrences, lemma_tally_len, occurrences, tally,
};
use vstd::prelude::*;

verus! {

/// No file is named by more entries than a counter can hold.
pub open spec fn counts_fit(entries: Seq<FileView>) -> bool {
    forall|name: Seq<char>| occurrences(entries, name) <= u32::MAX
}

/// Entries that are no more than a counter can hold give no file too many.
pub proof fn lemma_few_entries_fit(entries: Seq<FileView>)
    requires
        entries.len() <= u32::MAX,
    ensures
        counts_fit(entries),
{
    assert forall|name: Seq<char>| occurrences(entries, name) <= u32::MAX by {
        entries.lemma_filter_len(|e: FileView| e.filename == name);
    }
}

/// Two entries with one path rank as one file: it counts two and carries the locator of the
/// first entry, whatever the second one's locator is.
pub proof fn lemma_same_path_ranks_once(first: FileView, second: FileView, limit: nat)
    requires
        first.filename == second.filename,
        limit >= 1,
    ensures
        ranking(tally(seq![first, second]), limit) == seq![FileCount { file: first, count: 2 }],
{
    let rows = tally(seq![first, second]);
    lemma_same_path_collapses(first, second);
    lemma_ranking_properties(rows, limit);
    assert(rows.contains(ranking(rows, limit)[0]));
    assert(ranking(rows, limit) =~= rows);
}

/// A commit whose record could not be had changes nothing in the ranking: it is the ranking
/// of the other commits.
pub proof fn lemma_failed_fetch_is_dropped(fetches: Seq<DetailFetch>, i: int, limit: nat)
    requires
        0 <= i < fetches.len(),
        fetches[i] is Failed,
    ensures
        ranking(tally(window_entries(fetches)), limit) == ranking(
            tally(window_entries(fetches.remove(i))),
            limit,
        ),
{
    lemma_failed_fetch_adds_nothing(fetches, i);
}

/// A source of commits that can say which of its files were changed most often.
pub trait TopChangedFilesExt {
    /// What the source holds: the diff entries of its commits, commit after commit, or the
    /// reason why its commits could not be listed.
    spec fn outcome(&self) -> Result<Seq<FileView>, Seq<char>>;

    /// The `num_of_files` files that the most commits touched, each with the number of diff
    /// entries that name it, greatest first. Files with equal counts stand in the order in
    /// which they were first named. Fails only where the commits could not be listed.
    fn get_top_changed_files(&self, num_of_files: usize) -> (top: Result<
        Vec<(CodeFile, u32)>,
        ProviderError,
    >)
        requires
            self.outcome() matches Ok(entries) ==> counts_fit(entries),
        ensures
            match (self.outcome(), top) {
                (Ok(entries), Ok(rows)) => {
                    &&& counted_view(rows@) == ranking(tally(entries), num_of_files as nat)
                    &&& rows@.len() == if num_of_files < distinct_files(entries) {
                        num_of_files as nat
                    } else {
                        distinct_files(entries)
                    }
                    &&& forall|i: int, j: int|
                        0 <= i < j < rows@.len() ==> rows@[i].1 >= rows@[j].1
                    &&& forall|i: int|
                        0 <= i < rows@.len() ==> rows@[i].1 >= 1 && rows@[i].1 == occurrences(
                            entries,
                            rows@[i].0.filename@,
                        )
                },
                (Err(reason), Err(error)) => error@ == reason,
                _ => false,
            },
    ;
}

impl TopChangedFilesExt for CommitWindow {
    open spec fn outcome(&self) -> Result<Seq<FileView>, Seq<char>> {
        match self {
            CommitWindow::Listed(fetches) => Ok(window_entries(fetches@)),
            CommitWindow::Unavailable(error) => Err(error@),
        }
    }

    fn get_top_changed_files(&self, num_of_files: usize) -> (top: Result<
        Vec<(CodeFile, u32)>,
        ProviderError,
    >) {
        match self {
            CommitWindow::Unavailable(error) => Err(error.clone()),
            CommitWindow::Listed(fetches) => {
                let ghost all = window_entries(fetches@);
                let mut aggregate = Aggregate::new();
                let mut i: usize = 0;
                while i < fetches.len()
                    invariant
                        i <= fetches.len(),
                        all == window_entries(fetches@),
                        counts_fit(all),
                        aggregate.wf(),
                        aggregate@ == tally(window_entries(fetches@.take(i as int))),
                    decreases fetches.len() - i,
                {
                    let ghost done = fetches@.take(i as int);
                    let ghost seen = window_entries(done);
                    let ghost next = fetches@[i as int].entries();
                    proof {
                        assert(fetches@.take(i + 1).drop_last() == done);
                        assert(fetches@ == fetches@.take(i + 1) + fetches@.skip(i + 1));
                        lemma_window_entries_add(fetches@.take(i + 1), fetches@.skip(i + 1));
                        assert forall|name: Seq<char>|
                            count_of(aggregate@, name) + occurrences(next, name)
                                <= u32::MAX by {
                            lemma_tally_counts_occurrences(seen, name);
                            lemma_occurrences_add(
                                seen + next,
                                window_entries(fetches@.skip(i + 1)),
                                name,
                            );
                        }
                        lemma_tally_add(seen, next);
                    }
                    aggregate.record_commit(&fetches[i]);
                    i += 1;
                }
                assert(fetches@.take(fetches.len() as int) == fetches@);
                let ghost rows = aggregate@;
                let top = aggregate.ranked(num_of_files);
                proof {
                    lemma_tally_len(all);
                    lemma_ranking_properties(rows, num_of_files as nat);
                    let ranked = counted_view(top@);
                    assert forall|i: int| 0 <= i < top@.len() implies top@[i].1 == occurrences(
                        all,
                        top@[i].0.filename@,
                    ) by {
                        assert(rows.contains(ranked[i]));
                    }
                }
                Ok(top)
            },
        }
    }
}

impl CommitWindow {
    /// Whether the window holds no more entries than a counter can hold. Where it does, no
    /// file can be named too often, and the window can be ranked.
    pub fn fits_counters(&self) -> (fits: bool)
        ensures
            fits <==> (self.outcome() matches Ok(entries) ==> entries.len() <= u32::MAX),
            fits ==> (self.outcome() matches Ok(entries) ==> counts_fit(entries)),
    {
        match self {
            CommitWindow::Unavailable(_) => true,
            CommitWindow::Listed(fetches) => {
                let ghost all = window_entries(fetches@);
                let mut total: u64 = 0;
                let mut i: usize = 0;
                while i < fetches.len()
                    invariant
                        i <= fetches.len(),
                        all == window_entries(fetches@),
                        self.outcome() == Ok::<Seq<FileView>, Seq<char>>(all),
                        total == window_entries(fetches@.take(i as int)).len(),
                        total <= u32::MAX,
                    decreases fetches.len() - i,
                {
                    proof {
                        assert(fetches@.take(i + 1).drop_last() == fetches@.take(i as int));
                        assert(fetches@ == fetches@.take(i + 1) + fetches@.skip(i + 1));
                        lemma_window_entries_add(fetches@.take(i + 1), fetches@.skip(i + 1));
                    }
                    let more: usize = match &fetches[i] {
                        DetailFetch::Fetched(detail) => match &detail.files {
                            Some(files) => files.len(),
                            None => 0,
                        },
                        DetailFetch::Failed => 0,
                    };
                    if more > u32::MAX as usize || total + more as u64 > u32::MAX as u64 {
                        return false;
                    }
                    total = total + more as u64;
                    i += 1;
                }
                proof {
                    assert(fetches@.take(fetches.len() as int) == fetches@);
                    lemma_few_entries_fit(all);
                }
                true
            },
        }
    }
}

} // verus!
