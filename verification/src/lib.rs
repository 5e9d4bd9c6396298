//! Ranks the files of a repository by how many commits of a trailing window touched them.
//!
//! A forge is asked, outside this library, for the commits since [`window_start`] and for the
//! full record of each. What it answered is a [`CommitWindow`]. Its diff entries are counted
//! by path into an [`Aggregate`], and [`TopChangedFilesExt::get_top_changed_files`] returns
//! the files with the greatest counts, greatest first.
//!
//! The modules `tally` and `ranking` say what is counted and in which order the files stand,
//! and prove what holds of both.

pub mod aggregate;
pub mod code_file;
pub mod commit;
pub mod ranking;
pub mod sorting;
pub mod tally;
pub mod top_changed;
pub mod window;

pub use aggregate::Aggregate;
pub use code_file::CodeFile;
pub use commit::{CommitDetail, CommitWindow, DetailFetch, DiffEntry, ProviderError};
pub use top_changed::TopChangedFilesExt;
pub use window::{window_start, SECONDS_PER_DAY, WINDOW_DAYS};
