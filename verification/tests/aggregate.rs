use complexity_radar::sorting::{descending, sort_by_count_descending};
use complexity_radar::{window_start, Aggregate, CodeFile, CommitDetail, DetailFetch, DiffEntry, SECONDS_PER_DAY, WINDOW_DAYS};
use std::cmp::Ordering;
use std::collections::hash_map::DefaultHasher;
use std::hash::{Hash, Hasher};

fn diff(name: &str, url: &str) -> DiffEntry {
    DiffEntry { filename: name.to_string(), raw_url: url.to_string() }
}

fn counted(name: &str, count: u32) -> (CodeFile, u32) {
    (CodeFile { filename: name.to_string(), file_url: format!("u/{}", name) }, count)
}

fn hash_of(file: &CodeFile) -> u64 {
    let mut hasher = DefaultHasher::new();
    file.hash(&mut hasher);
    hasher.finish()
}

#[test]
fn new_aggregate_is_empty() {
    let aggregate = Aggregate::new();
    assert_eq!(aggregate.len(), 0);
    assert!(aggregate.ranked(3).is_empty());
}

#[test]
fn record_counts_by_path() {
    let mut aggregate = Aggregate::new();
    aggregate.record(&diff("a", "1"));
    aggregate.record(&diff("b", "2"));
    aggregate.record(&diff("a", "3"));
    aggregate.record(&diff("b", "4"));
    aggregate.record(&diff("b", "5"));
    assert_eq!(aggregate.len(), 2);
    let top = aggregate.ranked(5);
    assert_eq!(top.len(), 2);
    assert_eq!((top[0].0.filename.as_str(), top[0].0.file_url.as_str(), top[0].1), ("b", "2", 3));
    assert_eq!((top[1].0.filename.as_str(), top[1].0.file_url.as_str(), top[1].1), ("a", "1", 2));
}

#[test]
fn record_commit_counts_each_entry() {
    let mut aggregate = Aggregate::new();
    aggregate.record_commit(&DetailFetch::Fetched(CommitDetail {
        files: Some(vec![diff("a", "1"), diff("b", "1")]),
    }));
    aggregate.record_commit(&DetailFetch::Failed);
    aggregate.record_commit(&DetailFetch::Fetched(CommitDetail { files: None }));
    aggregate.record_commit(&DetailFetch::Fetched(CommitDetail { files: Some(vec![diff("b", "2")]) }));
    assert_eq!(aggregate.len(), 2);
    let top = aggregate.ranked(1);
    assert_eq!(top.len(), 1);
    assert_eq!((top[0].0.filename.as_str(), top[0].0.file_url.as_str(), top[0].1), ("b", "1", 2));
}

#[test]
fn sort_puts_greater_counts_first_and_keeps_ties_in_order() {
    let sorted = sort_by_count_descending(vec![
        counted("a", 1),
        counted("b", 5),
        counted("c", 3),
        counted("d", 5),
        counted("e", 1),
        counted("f", 4),
    ]);
    let got: Vec<(&str, u32)> = sorted.iter().map(|(f, c)| (f.filename.as_str(), *c)).collect();
    assert_eq!(got, vec![("b", 5), ("d", 5), ("f", 4), ("c", 3), ("a", 1), ("e", 1)]);
    assert_eq!(sorted[0].0.file_url, "u/b");
}

#[test]
fn sort_of_nothing_is_nothing() {
    assert!(sort_by_count_descending(Vec::new()).is_empty());
}

#[test]
fn descending_orders_the_greater_count_first() {
    assert_eq!(descending(3, 2), Ordering::Less);
    assert_eq!(descending(2, 3), Ordering::Greater);
    assert_eq!(descending(7, 7), Ordering::Equal);
    assert_eq!(descending(0, u32::MAX), Ordering::Greater);
}

#[test]
fn code_files_are_equal_by_path_alone() {
    let one = CodeFile { filename: "src/main.rs".to_string(), file_url: "https://forge/1".to_string() };
    let other = CodeFile { filename: "src/main.rs".to_string(), file_url: "https://forge/2".to_string() };
    let third = CodeFile { filename: "src/lib.rs".to_string(), file_url: "https://forge/1".to_string() };
    assert_eq!(one, other);
    assert_ne!(one, third);
    assert_eq!(hash_of(&one), hash_of(&other));
}

#[test]
fn clone_keeps_path_and_locator() {
    let one = CodeFile { filename: "a".to_string(), file_url: "u".to_string() };
    let copy = one.clone();
    assert_eq!(copy.filename, "a");
    assert_eq!(copy.file_url, "u");
}

#[test]
fn diff_entry_names_its_file() {
    let file = diff("docs/index.md", "https://forge/raw/9").code_file();
    assert_eq!(file.filename, "docs/index.md");
    assert_eq!(file.file_url, "https://forge/raw/9");
}

#[test]
fn window_starts_a_year_of_days_earlier() {
    assert_eq!(WINDOW_DAYS, 365);
    assert_eq!(SECONDS_PER_DAY, 86_400);
    assert_eq!(window_start(1_700_000_000), 1_668_464_000);
    assert_eq!(window_start(0), -31_536_000);
    assert_eq!(window_start(i64::MIN + 31_536_000), i64::MIN);
}
