//! The identity of a file across the commits of a repository.

use std::hash::{Hash, Hasher};
use vstd::prelude::*;
use vstd::std_specs::cmp::PartialEqSpecImpl;

verus! {

/// What a [`CodeFile`] stands for: the path that identifies the file, and the place where one
/// revision of it was found.
pub ghost struct FileView {
    pub filename: Seq<char>,
    pub file_url: Seq<char>,
}

/// One file of a repository. Two values name the same file when their paths agree; the
/// locator is carried along and takes no part in comparisons.
#[derive(Eq, Debug)]
pub struct CodeFile {
    pub filename: String,
    pub file_url: String,
}

impl View for CodeFile {
    type V = FileView;

    open spec fn view(&self) -> FileView {
        FileView { filename: self.filename@, file_url: self.file_url@ }
    }
}

impl Clone for CodeFile {
    fn clone(&self) -> (copy: Self)
        ensures
            copy == *self,
    {
        CodeFile { filename: self.filename.clone(), file_url: self.file_url.clone() }
    }
}

impl PartialEq for CodeFile {
    fn eq(&self, other: &Self) -> (same: bool) {
        self.filename == other.filename
    }
}

impl PartialEqSpecImpl for CodeFile {
    open spec fn obeys_eq_spec() -> bool {
        true
    }

    open spec fn eq_spec(&self, other: &Self) -> bool {
        self.filename@ == other.filename@
    }
}

impl Hash for CodeFile {
    /// Calls `String::hash` on the path, and on nothing else, so that files that compare
    /// equal hash alike. Nothing is claimed of what the hasher then holds.
    #[verifier::external_body]
    fn hash<H: Hasher>(&self, state: &mut H) {
        self.filename.hash(state);
    }
}

/// A file and the number of diff entries that name it.
pub ghost struct FileCount {
    pub file: FileView,
    pub count: nat,
}

/// What a run of counted files stands for.
pub open spec fn counted_view(rows: Seq<(CodeFile, u32)>) -> Seq<FileCount> {
    rows.map_values(|r: (CodeFile, u32)| FileCount { file: r.0@, count: r.1 as nat })
}

} // verus!
