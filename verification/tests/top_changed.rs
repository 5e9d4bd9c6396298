use complexity_radar::{
    CodeFile, CommitDetail, CommitWindow, DetailFetch, DiffEntry, ProviderError,
    TopChangedFilesExt,
};

fn entry(name: &str, url: &str) -> DiffEntry {
    DiffEntry { filename: name.to_string(), raw_url: url.to_string() }
}

fn commit(names: &[&str]) -> DetailFetch {
    let files = names.iter().map(|name| entry(name, &format!("https://forge/raw/{}", name))).collect();
    DetailFetch::Fetched(CommitDetail { files: Some(files) })
}

fn file(name: &str) -> CodeFile {
    CodeFile { filename: name.to_string(), file_url: String::new() }
}

fn names_and_counts(rows: &[(CodeFile, u32)]) -> Vec<(String, u32)> {
    rows.iter().map(|(file, count)| (file.filename.clone(), *count)).collect()
}

#[test]
fn get_the_top_5_changed_files() {
    let mut commits = Vec::new();
    for i in 0..15 {
        let mut names = vec!["README.md"];
        if i < 7 {
            names.push("generate-quantum-programs.py");
        }
        if i < 4 {
            names.push("large_quantum_program_input.json");
        }
        if i < 3 {
            names.push("quantum_program_input.json");
        }
        if i < 1 {
            names.push("LICENSE");
        }
        commits.push(commit(&names));
    }
    let window = CommitWindow::Listed(commits);

    let top_5_changed_files = window.get_top_changed_files(5);

    let expected: Vec<(CodeFile, u32)> = vec![
        (file("README.md"), 15),
        (file("generate-quantum-programs.py"), 7),
        (file("large_quantum_program_input.json"), 4),
        (file("quantum_program_input.json"), 3),
        (file("LICENSE"), 1),
    ];
    assert_eq!(expected, top_5_changed_files.unwrap());
}

#[test]
fn three_files_over_five_commits_limit_two() {
    let window = CommitWindow::Listed(vec![
        commit(&["README.md", "a.py"]),
        commit(&["README.md"]),
        commit(&["README.md"]),
        commit(&["a.py"]),
        commit(&["b.json"]),
    ]);
    let top = window.get_top_changed_files(2).unwrap();
    assert_eq!(
        names_and_counts(&top),
        vec![("README.md".to_string(), 3), ("a.py".to_string(), 2)]
    );
}

#[test]
fn limit_above_the_number_of_files_returns_them_all() {
    let window = CommitWindow::Listed(vec![
        commit(&["one.rs"]),
        commit(&["two.rs", "one.rs"]),
    ]);
    let top = window.get_top_changed_files(10).unwrap();
    assert_eq!(
        names_and_counts(&top),
        vec![("one.rs".to_string(), 2), ("two.rs".to_string(), 1)]
    );
    assert_eq!(top.len(), 2);
}

#[test]
fn empty_window_gives_an_empty_ranking() {
    let window = CommitWindow::Listed(Vec::new());
    let top = window.get_top_changed_files(5);
    assert!(matches!(top, Ok(ref rows) if rows.is_empty()));
}

#[test]
fn commits_without_entries_give_an_empty_ranking() {
    let window = CommitWindow::Listed(vec![
        DetailFetch::Fetched(CommitDetail { files: None }),
        DetailFetch::Fetched(CommitDetail { files: Some(Vec::new()) }),
        DetailFetch::Failed,
    ]);
    let top = window.get_top_changed_files(5).unwrap();
    assert!(top.is_empty());
}

#[test]
fn limit_zero_gives_an_empty_ranking() {
    let window = CommitWindow::Listed(vec![commit(&["a"]), commit(&["b"])]);
    let top = window.get_top_changed_files(0).unwrap();
    assert!(top.is_empty());
}

#[test]
fn same_path_with_two_locators_is_one_file_with_the_first_locator() {
    let window = CommitWindow::Listed(vec![
        DetailFetch::Fetched(CommitDetail { files: Some(vec![entry("src/lib.rs", "https://forge/raw/1")]) }),
        DetailFetch::Fetched(CommitDetail { files: Some(vec![entry("src/lib.rs", "https://forge/raw/2")]) }),
    ]);
    let top = window.get_top_changed_files(5).unwrap();
    assert_eq!(top.len(), 1);
    assert_eq!(top[0].0.filename, "src/lib.rs");
    assert_eq!(top[0].0.file_url, "https://forge/raw/1");
    assert_eq!(top[0].1, 2);
}

#[test]
fn failed_fetch_is_dropped_and_the_rest_is_ranked() {
    let with_failure = CommitWindow::Listed(vec![
        commit(&["a", "b"]),
        DetailFetch::Failed,
        commit(&["a"]),
    ]);
    let without = CommitWindow::Listed(vec![commit(&["a", "b"]), commit(&["a"])]);
    let top = with_failure.get_top_changed_files(5).unwrap();
    assert_eq!(names_and_counts(&top), vec![("a".to_string(), 2), ("b".to_string(), 1)]);
    assert_eq!(names_and_counts(&top), names_and_counts(&without.get_top_changed_files(5).unwrap()));
}

#[test]
fn only_failed_fetches_give_an_empty_ranking() {
    let window = CommitWindow::Listed(vec![DetailFetch::Failed, DetailFetch::Failed]);
    assert_eq!(window.get_top_changed_files(3), Ok(Vec::new()));
}

#[test]
fn unavailable_listing_is_an_error() {
    let window = CommitWindow::Unavailable(ProviderError { message: "rate limit exceeded".to_string() });
    let top = window.get_top_changed_files(5);
    assert_eq!(top, Err(ProviderError { message: "rate limit exceeded".to_string() }));
}

#[test]
fn least_changed_first_comes_out_most_changed_first() {
    let window = CommitWindow::Listed(vec![
        commit(&["once"]),
        commit(&["twice", "thrice"]),
        commit(&["twice", "thrice"]),
        commit(&["thrice"]),
    ]);
    let top = window.get_top_changed_files(3).unwrap();
    assert_eq!(
        names_and_counts(&top),
        vec![("thrice".to_string(), 3), ("twice".to_string(), 2), ("once".to_string(), 1)]
    );
}

#[test]
fn equal_counts_keep_the_order_of_first_appearance() {
    let window = CommitWindow::Listed(vec![
        commit(&["c", "a"]),
        commit(&["b", "top"]),
        commit(&["top", "b", "a", "c"]),
        commit(&["d"]),
    ]);
    let top = window.get_top_changed_files(10).unwrap();
    assert_eq!(
        names_and_counts(&top),
        vec![
            ("c".to_string(), 2),
            ("a".to_string(), 2),
            ("b".to_string(), 2),
            ("top".to_string(), 2),
            ("d".to_string(), 1),
        ]
    );
    let cut = window.get_top_changed_files(2).unwrap();
    assert_eq!(names_and_counts(&cut), vec![("c".to_string(), 2), ("a".to_string(), 2)]);
}

#[test]
fn length_is_the_smaller_of_limit_and_files() {
    let window = CommitWindow::Listed(vec![commit(&["a", "b", "c"]), commit(&["a", "d"])]);
    for limit in 0..8 {
        let top = window.get_top_changed_files(limit).unwrap();
        assert_eq!(top.len(), limit.min(4));
    }
}

#[test]
fn counts_never_rise_and_are_never_zero() {
    let window = CommitWindow::Listed(vec![
        commit(&["x", "y", "z"]),
        commit(&["y", "z"]),
        DetailFetch::Failed,
        commit(&["z", "w"]),
        commit(&["w", "w"]),
    ]);
    let top = window.get_top_changed_files(10).unwrap();
    assert_eq!(
        names_and_counts(&top),
        vec![
            ("z".to_string(), 3),
            ("w".to_string(), 3),
            ("y".to_string(), 2),
            ("x".to_string(), 1),
        ]
    );
    for pair in top.windows(2) {
        assert!(pair[0].1 >= pair[1].1);
    }
    for row in &top {
        assert!(row.1 >= 1);
    }
}

#[test]
fn small_windows_fit_the_counters() {
    let listed = CommitWindow::Listed(vec![commit(&["a", "b"]), DetailFetch::Failed, commit(&[])]);
    assert!(listed.fits_counters());
    assert!(CommitWindow::Listed(Vec::new()).fits_counters());
    let unavailable = CommitWindow::Unavailable(ProviderError { message: "no route".to_string() });
    assert!(unavailable.fits_counters());
}

#[test]
fn a_file_named_twice_in_one_commit_counts_twice() {
    let window = CommitWindow::Listed(vec![commit(&["a", "b", "a"])]);
    let top = window.get_top_changed_files(2).unwrap();
    assert_eq!(names_and_counts(&top), vec![("a".to_string(), 2), ("b".to_string(), 1)]);
}

#[test]
fn many_files_are_ranked_by_their_counts() {
    let mut commits = Vec::new();
    for round in 0..40u32 {
        let names: Vec<String> = (round..40).map(|n| format!("file-{:02}", n)).collect();
        let refs: Vec<&str> = names.iter().map(|n| n.as_str()).collect();
        commits.push(commit(&refs));
    }
    let window = CommitWindow::Listed(commits);
    let top = window.get_top_changed_files(40).unwrap();
    assert_eq!(top.len(), 40);
    for (place, row) in top.iter().enumerate() {
        assert_eq!(row.0.filename, format!("file-{:02}", 39 - place));
        assert_eq!(row.1, 40 - place as u32);
    }
}
