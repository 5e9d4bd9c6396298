//! What a forge answers about the commits of a repository, as plain values.

use crate::code_file::{CodeFile, FileView};
use vstd::prelude::*;

verus! {

/// One file's part in a commit: its path, and where its content at that revision lies.
#[derive(Debug)]
pub struct DiffEntry {
    pub filename: String,
    pub raw_url: String,
}

impl View for DiffEntry {
    type V = FileView;

    open spec fn view(&self) -> FileView {
        FileView { filename: self.filename@, file_url: self.raw_url@ }
    }
}

impl DiffEntry {
    /// The file that this entry is about, with the entry's locator.
    pub fn code_file(&self) -> (file: CodeFile)
        ensures
            file@ == self@,
    {
        CodeFile { filename: self.filename.clone(), file_url: self.raw_url.clone() }
    }
}

/// The views of a run of entries, in order.
pub open spec fn entry_views(files: Seq<DiffEntry>) -> Seq<FileView> {
    files.map_values(|e: DiffEntry| e@)
}

/// The full record of one commit. A forge may leave out the list of files.
#[derive(Debug)]
pub struct CommitDetail {
    pub files: Option<Vec<DiffEntry>>,
}

impl CommitDetail {
    /// The entries that the commit brings: those of its list, none where it has no list.
    pub open spec fn entries(&self) -> Seq<FileView> {
        match self.files {
            Some(files) => entry_views(files@),
            None => Seq::empty(),
        }
    }
}

/// How the request for one commit's full record ended.
#[derive(Debug)]
pub enum DetailFetch {
    Fetched(CommitDetail),
    Failed,
}

impl DetailFetch {
    /// The entries that the commit brings: none where its record could not be had.
    pub open spec fn entries(&self) -> Seq<FileView> {
        match self {
            DetailFetch::Fetched(detail) => detail.entries(),
            DetailFetch::Failed => Seq::empty(),
        }
    }
}

/// The entries of a run of commits, commit after commit.
pub open spec fn window_entries(fetches: Seq<DetailFetch>) -> Seq<FileView>
    decreases fetches.len(),
{
    if fetches.len() == 0 {
        Seq::empty()
    } else {
        window_entries(fetches.drop_last()) + fetches.last().entries()
    }
}

/// The entries of two runs of commits are those of the first, then those of the second.
pub proof fn lemma_window_entries_add(a: Seq<DetailFetch>, b: Seq<DetailFetch>)
    ensures
        window_entries(a + b) == window_entries(a) + window_entries(b),
    decreases b.len(),
{
    if b.len() > 0 {
        lemma_window_entries_add(a, b.drop_last());
        assert((a + b).drop_last() =~= a + b.drop_last());
    }
}

/// A commit whose record could not be had counts for nothing: the entries are those of the
/// other commits.
pub proof fn lemma_failed_fetch_adds_nothing(fetches: Seq<DetailFetch>, i: int)
    requires
        0 <= i < fetches.len(),
        fetches[i] is Failed,
    ensures
        window_entries(fetches) == window_entries(fetches.remove(i)),
{
    let before = fetches.take(i);
    let after = fetches.skip(i + 1);
    let failed = seq![fetches[i]];
    assert(fetches =~= before + failed + after);
    lemma_window_entries_add(before + failed, after);
    lemma_window_entries_add(before, failed);
    lemma_window_entries_add(before, after);
    assert(window_entries(failed.drop_last()) == Seq::<FileView>::empty());
}

/// Why the commits of a repository could not be listed.
#[derive(Debug, PartialEq, Eq)]
pub struct ProviderError {
    pub message: String,
}

impl View for ProviderError {
    type V = Seq<char>;

    open spec fn view(&self) -> Seq<char> {
        self.message@
    }
}

impl Clone for ProviderError {
    fn clone(&self) -> (copy: Self)
        ensures
            copy == *self,
    {
        ProviderError { message: self.message.clone() }
    }
}

/// What a forge answered about the commits of one repository since some instant: either the
/// commits, each with the outcome of the request for its full record, or the reason why the
/// commits could not be listed.
#[derive(Debug)]
pub enum CommitWindow {
    Listed(Vec<DetailFetch>),
    Unavailable(ProviderError),
}

} // verus!
