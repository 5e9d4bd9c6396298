//! What a sequence of diff entries amounts to: one row for each file named, holding the
//! number of entries that name it.

use crate::code_file::{FileCount, FileView};
use vstd::prelude::*;

verus! {

/// The number of entries that name the file `name`.
pub open spec fn occurrences(entries: Seq<FileView>, name: Seq<char>) -> nat {
    entries.filter(|e: FileView| e.filename == name).len()
}

/// The paths that the entries name, entry by entry.
pub open spec fn named(entries: Seq<FileView>) -> Seq<Seq<char>> {
    entries.map_values(|e: FileView| e.filename)
}

/// The number of different files that the entries name.
pub open spec fn distinct_files(entries: Seq<FileView>) -> nat {
    named(entries).to_set().len()
}

/// For each file named, the first entry that names it, in the order of those entries.
pub open spec fn first_seen(entries: Seq<FileView>) -> Seq<FileView>
    decreases entries.len(),
{
    if entries.len() == 0 {
        Seq::empty()
    } else {
        let before = entries.drop_last();
        if occurrences(before, entries.last().filename) > 0 {
            first_seen(before)
        } else {
            first_seen(before).push(entries.last())
        }
    }
}

/// One row for each file that the entries name, in the order in which the files are first
/// named. A row holds the first entry that names its file, and the number of entries that do.
pub open spec fn tally(entries: Seq<FileView>) -> Seq<FileCount> {
    first_seen(entries).map_values(
        |e: FileView| FileCount { file: e, count: occurrences(entries, e.filename) },
    )
}

/// Some row is about the file `name`.
pub open spec fn has_name(rows: Seq<FileCount>, name: Seq<char>) -> bool {
    exists|i: int| 0 <= i < rows.len() && #[trigger] rows[i].file.filename == name
}

/// No two rows are about the same file.
pub open spec fn distinct_names(rows: Seq<FileCount>) -> bool {
    forall|i: int, j: int|
        0 <= i < j < rows.len() ==> rows[i].file.filename != rows[j].file.filename
}

/// Rows as a tally has them: one row for a file, and no row without a count.
pub open spec fn is_tally(rows: Seq<FileCount>) -> bool {
    &&& distinct_names(rows)
    &&& forall|i: int| 0 <= i < rows.len() ==> rows[i].count >= 1
}

/// The count that the rows hold for the file `name`: zero where no row is about it.
pub open spec fn count_of(rows: Seq<FileCount>, name: Seq<char>) -> nat
    decreases rows.len(),
{
    if rows.len() == 0 {
        0
    } else if rows.last().file.filename == name {
        rows.last().count
    } else {
        count_of(rows.drop_last(), name)
    }
}

/// The rows after one more entry: the row of the entry's file counts one more and keeps the
/// entry it held; a file without a row gets one, with this entry and the count one.
pub open spec fn bump(rows: Seq<FileCount>, entry: FileView) -> Seq<FileCount> {
    if has_name(rows, entry.filename) {
        Seq::new(
            rows.len(),
            |i: int|
                if rows[i].file.filename == entry.filename {
                    FileCount { file: rows[i].file, count: rows[i].count + 1 }
                } else {
                    rows[i]
                },
        )
    } else {
        rows.push(FileCount { file: entry, count: 1 })
    }
}

/// The rows after a run of entries, taken one by one.
pub open spec fn bump_all(rows: Seq<FileCount>, entries: Seq<FileView>) -> Seq<FileCount>
    decreases entries.len(),
{
    if entries.len() == 0 {
        rows
    } else {
        bump(bump_all(rows, entries.drop_last()), entries.last())
    }
}

/// One more entry adds one occurrence of its file, and none of any other.
pub proof fn lemma_occurrences_push(entries: Seq<FileView>, entry: FileView, name: Seq<char>)
    ensures
        occurrences(entries.push(entry), name) == occurrences(entries, name) + if entry.filename
            == name {
            1nat
        } else {
            0nat
        },
{
    entries.lemma_filter_push(entry, |e: FileView| e.filename == name);
}

/// The occurrences in two runs of entries add up.
pub proof fn lemma_occurrences_add(a: Seq<FileView>, b: Seq<FileView>, name: Seq<char>)
    ensures
        occurrences(a + b, name) == occurrences(a, name) + occurrences(b, name),
{
    Seq::filter_distributes_over_add(a, b, |e: FileView| e.filename == name);
}

proof fn lemma_occurrences_empty(name: Seq<char>)
    ensures
        occurrences(Seq::empty(), name) == 0,
{
    Seq::<FileView>::empty().lemma_filter_len(|e: FileView| e.filename == name);
}

/// The files of `first_seen` are the files that the entries name.
proof fn lemma_first_seen_names(entries: Seq<FileView>, name: Seq<char>)
    ensures
        occurrences(entries, name) > 0 <==> exists|i: int|
            0 <= i < first_seen(entries).len() && #[trigger] first_seen(entries)[i].filename
                == name,
    decreases entries.len(),
{
    if entries.len() > 0 {
        let before = entries.drop_last();
        let entry = entries.last();
        assert(entries == before.push(entry));
        lemma_first_seen_names(before, name);
        lemma_occurrences_push(before, entry, name);
        let now = first_seen(entries);
        let then = first_seen(before);
        if occurrences(before, name) > 0 {
            let i = choose|i: int| 0 <= i < then.len() && #[trigger] then[i].filename == name;
            assert(now[i].filename == name);
        } else if occurrences(entries, name) > 0 {
            assert(now[now.len() - 1].filename == name);
        }
    }
}

/// `first_seen` holds one entry for a file.
proof fn lemma_first_seen_distinct(entries: Seq<FileView>)
    ensures
        forall|i: int, j: int|
            0 <= i < j < first_seen(entries).len() ==> first_seen(entries)[i].filename
                != first_seen(entries)[j].filename,
    decreases entries.len(),
{
    if entries.len() > 0 {
        let before = entries.drop_last();
        let entry = entries.last();
        lemma_first_seen_distinct(before);
        lemma_first_seen_names(before, entry.filename);
        let now = first_seen(entries);
        let then = first_seen(before);
        assert forall|i: int, j: int| 0 <= i < j < now.len() implies now[i].filename
            != now[j].filename by {
            assert(now[i] == then[i]);
        }
    }
}

/// A tally is well formed: one row for a file, and each row counts at least one entry.
pub proof fn lemma_tally_is_tally(entries: Seq<FileView>)
    ensures
        is_tally(tally(entries)),
{
    lemma_first_seen_distinct(entries);
    let rows = tally(entries);
    let seen = first_seen(entries);
    assert forall|i: int| 0 <= i < rows.len() implies rows[i].count >= 1 by {
        lemma_first_seen_names(entries, seen[i].filename);
    }
}

/// A tally has a row for a file exactly where an entry names the file.
pub proof fn lemma_tally_has_name(entries: Seq<FileView>, name: Seq<char>)
    ensures
        has_name(tally(entries), name) <==> occurrences(entries, name) > 0,
{
    lemma_first_seen_names(entries, name);
    let rows = tally(entries);
    let seen = first_seen(entries);
    if occurrences(entries, name) > 0 {
        let i = choose|i: int| 0 <= i < seen.len() && #[trigger] seen[i].filename == name;
        assert(rows[i].file.filename == name);
    }
}

/// Tallying one more entry is bumping the tally by it.
pub proof fn lemma_tally_push(entries: Seq<FileView>, entry: FileView)
    ensures
        tally(entries.push(entry)) == bump(tally(entries), entry),
{
    let more = entries.push(entry);
    assert(more.drop_last() == entries);
    lemma_tally_has_name(entries, entry.filename);
    let rows = tally(entries);
    let seen = first_seen(entries);
    let next = tally(more);
    let bumped = bump(rows, entry);
    assert forall|i: int| 0 <= i < next.len() implies next[i] == bumped[i] by {
        if i < seen.len() {
            lemma_occurrences_push(entries, entry, seen[i].filename);
            if !has_name(rows, entry.filename) {
                assert(rows[i].file.filename == seen[i].filename);
            }
        } else {
            lemma_occurrences_push(entries, entry, entry.filename);
        }
    }
}

/// Tallying two runs of entries is bumping the tally of the first by the second.
pub proof fn lemma_tally_add(a: Seq<FileView>, b: Seq<FileView>)
    ensures
        tally(a + b) == bump_all(tally(a), b),
    decreases b.len(),
{
    if b.len() > 0 {
        lemma_tally_add(a, b.drop_last());
        lemma_tally_push(a + b.drop_last(), b.last());
        assert((a + b.drop_last()).push(b.last()) =~= a + b);
    }
}

/// Bumping from nothing gives the tally.
pub proof fn lemma_tally_is_bump_all(entries: Seq<FileView>)
    ensures
        tally(entries) == bump_all(Seq::empty(), entries),
{
    lemma_tally_add(Seq::empty(), entries);
    assert(tally(Seq::empty()) =~= Seq::<FileCount>::empty());
}

/// Among rows with distinct names, the count held for a row's file is that row's count.
pub proof fn lemma_count_of_row(rows: Seq<FileCount>, i: int)
    requires
        distinct_names(rows),
        0 <= i < rows.len(),
    ensures
        count_of(rows, rows[i].file.filename) == rows[i].count,
    decreases rows.len(),
{
    if i < rows.len() - 1 {
        lemma_count_of_row(rows.drop_last(), i);
    }
}

/// The count held for a file that no row is about is zero.
pub proof fn lemma_count_of_absent(rows: Seq<FileCount>, name: Seq<char>)
    requires
        !has_name(rows, name),
    ensures
        count_of(rows, name) == 0,
    decreases rows.len(),
{
    if rows.len() > 0 {
        lemma_count_of_absent(rows.drop_last(), name);
    }
}

/// After a bump the rows are about the files they were about, and about the entry's file.
pub proof fn lemma_bump_names(rows: Seq<FileCount>, entry: FileView, name: Seq<char>)
    ensures
        has_name(bump(rows, entry), name) <==> has_name(rows, name) || name == entry.filename,
{
    let bumped = bump(rows, entry);
    if has_name(rows, name) {
        let i = choose|i: int| 0 <= i < rows.len() && #[trigger] rows[i].file.filename == name;
        assert(bumped[i].file.filename == name);
    } else if name == entry.filename {
        assert(bumped[rows.len() as int].file.filename == name);
    } else if has_name(bumped, name) {
        let i = choose|i: int|
            0 <= i < bumped.len() && #[trigger] bumped[i].file.filename == name;
        assert(rows[i].file.filename == name);
    }
}

/// Bumping keeps a tally well formed.
pub proof fn lemma_bump_keeps_tally(rows: Seq<FileCount>, entry: FileView)
    requires
        is_tally(rows),
    ensures
        is_tally(bump(rows, entry)),
{
}

/// Bumping adds one to the count held for the entry's file, and leaves the others.
pub proof fn lemma_count_of_bump(rows: Seq<FileCount>, entry: FileView, name: Seq<char>)
    requires
        is_tally(rows),
    ensures
        count_of(bump(rows, entry), name) == count_of(rows, name) + if entry.filename == name {
            1nat
        } else {
            0nat
        },
{
    let bumped = bump(rows, entry);
    if has_name(rows, name) {
        let i = choose|i: int| 0 <= i < rows.len() && #[trigger] rows[i].file.filename == name;
        lemma_count_of_row(rows, i);
        lemma_count_of_row(bumped, i);
    } else {
        lemma_count_of_absent(rows, name);
        if entry.filename != name {
            lemma_count_of_absent(bumped, name);
        }
    }
}

/// A run of entries keeps a tally well formed, and adds to the count held for each file the
/// number of entries that name it.
pub proof fn lemma_count_of_bump_all(rows: Seq<FileCount>, entries: Seq<FileView>, name: Seq<char>)
    requires
        is_tally(rows),
    ensures
        is_tally(bump_all(rows, entries)),
        count_of(bump_all(rows, entries), name) == count_of(rows, name) + occurrences(
            entries,
            name,
        ),
    decreases entries.len(),
{
    if entries.len() > 0 {
        let before = entries.drop_last();
        lemma_count_of_bump_all(rows, before, name);
        lemma_bump_keeps_tally(bump_all(rows, before), entries.last());
        lemma_count_of_bump(bump_all(rows, before), entries.last(), name);
        assert(entries == before.push(entries.last()));
        lemma_occurrences_push(before, entries.last(), name);
    }
}

/// The count that a tally holds for a file is the number of entries that name the file.
pub proof fn lemma_tally_counts_occurrences(entries: Seq<FileView>, name: Seq<char>)
    ensures
        count_of(tally(entries), name) == occurrences(entries, name),
{
    lemma_tally_is_bump_all(entries);
    lemma_count_of_bump_all(Seq::empty(), entries, name);
}

/// A file occurs among the entries exactly where some entry names it.
pub proof fn lemma_occurrences_positive(entries: Seq<FileView>, name: Seq<char>)
    ensures
        occurrences(entries, name) > 0 <==> named(entries).contains(name),
    decreases entries.len(),
{
    if entries.len() > 0 {
        let before = entries.drop_last();
        let entry = entries.last();
        assert(entries == before.push(entry));
        lemma_occurrences_positive(before, name);
        lemma_occurrences_push(before, entry, name);
        if named(entries).contains(name) {
            let k = choose|k: int| 0 <= k < entries.len() && named(entries)[k] == name;
            if k < before.len() {
                assert(named(before)[k] == name);
            }
        }
        if occurrences(entries, name) > 0 {
            if entry.filename == name {
                assert(named(entries)[entries.len() - 1] == name);
            } else {
                let k = choose|k: int| 0 <= k < before.len() && named(before)[k] == name;
                assert(named(entries)[k] == name);
            }
        }
    }
}

/// A tally has as many rows as the entries name different files.
pub proof fn lemma_tally_len(entries: Seq<FileView>)
    ensures
        tally(entries).len() == distinct_files(entries),
{
    let seen = named(first_seen(entries));
    lemma_first_seen_distinct(entries);
    assert forall|name: Seq<char>| seen.to_set().contains(name) <==> named(
        entries,
    ).to_set().contains(name) by {
        lemma_first_seen_names(entries, name);
        lemma_occurrences_positive(entries, name);
        if occurrences(entries, name) > 0 {
            let i = choose|i: int|
                0 <= i < first_seen(entries).len() && #[trigger] first_seen(entries)[i].filename
                    == name;
            assert(seen[i] == name);
        }
    }
    assert(seen.to_set() =~= named(entries).to_set());
    seen.unique_seq_to_set();
}

/// Two entries with one path make one row: it counts two and holds the first entry.
pub proof fn lemma_same_path_collapses(first: FileView, second: FileView)
    requires
        first.filename == second.filename,
    ensures
        tally(seq![first, second]) == seq![FileCount { file: first, count: 2 }],
{
    let none = Seq::<FileView>::empty();
    assert(tally(none) =~= Seq::<FileCount>::empty());
    lemma_tally_push(none, first);
    lemma_tally_push(none.push(first), second);
    assert(none.push(first).push(second) =~= seq![first, second]);
    let one = bump(Seq::<FileCount>::empty(), first);
    assert(one[0].file.filename == second.filename);
}

/// The entry at `i` is the first that names its file.
pub open spec fn names_first(entries: Seq<FileView>, i: int) -> bool {
    &&& 0 <= i < entries.len()
    &&& forall|j: int| 0 <= j < i ==> entries[j].filename != entries[i].filename
}

proof fn lemma_first_seen_is_first(entries: Seq<FileView>, k: int)
    requires
        0 <= k < first_seen(entries).len(),
    ensures
        exists|i: int| names_first(entries, i) && entries[i] == first_seen(entries)[k],
    decreases entries.len(),
{
    let before = entries.drop_last();
    if k < first_seen(before).len() {
        lemma_first_seen_is_first(before, k);
        let i = choose|i: int| names_first(before, i) && before[i] == first_seen(before)[k];
        assert forall|j: int| 0 <= j < i implies entries[j].filename != entries[i].filename by {
            assert(before[j].filename != before[i].filename);
        }
        assert(names_first(entries, i) && entries[i] == first_seen(entries)[k]);
    } else {
        let i = entries.len() - 1;
        lemma_occurrences_positive(before, entries[i].filename);
        assert forall|j: int| 0 <= j < i implies entries[j].filename != entries[i].filename by {
            if entries[j].filename == entries[i].filename {
                assert(named(before)[j] == entries[i].filename);
            }
        }
        assert(names_first(entries, i) && entries[i] == first_seen(entries)[k]);
    }
}

/// Each row of a tally holds the first entry that names its file: a later entry with the same
/// path and another locator changes the count and nothing else.
pub proof fn lemma_tally_holds_first_entry(entries: Seq<FileView>, k: int)
    requires
        0 <= k < tally(entries).len(),
    ensures
        exists|i: int| names_first(entries, i) && entries[i] == tally(entries)[k].file,
{
    lemma_first_seen_is_first(entries, k);
    let i = choose|i: int| names_first(entries, i) && entries[i] == first_seen(entries)[k];
    assert(names_first(entries, i) && entries[i] == tally(entries)[k].file);
}

/// The order of the entries does not matter to the counts: entries that are the same but for
/// their order name each file equally often.
pub proof fn lemma_counts_ignore_order(a: Seq<FileView>, b: Seq<FileView>, name: Seq<char>)
    requires
        a.to_multiset() == b.to_multiset(),
    ensures
        occurrences(a, name) == occurrences(b, name),
    decreases a.len(),
{
    a.to_multiset_ensures();
    b.to_multiset_ensures();
    if a.len() == 0 {
        assert(a =~= b);
    } else {
        let entry = a.last();
        let rest = a.drop_last();
        assert(a == rest.push(entry));
        rest.to_multiset_ensures();
        assert(a[a.len() - 1] == entry);
        assert(a.to_multiset().count(entry) > 0);
        assert(b.contains(entry));
        let i = choose|i: int| 0 <= i < b.len() && b[i] == entry;
        let others = b.remove(i);
        assert(rest.to_multiset() =~= a.to_multiset().remove(entry));
        assert(rest.to_multiset() =~= others.to_multiset());
        lemma_counts_ignore_order(rest, others, name);
        lemma_occurrences_push(rest, entry, name);
        assert(b =~= b.take(i).push(entry) + b.skip(i + 1));
        assert(others =~= b.take(i) + b.skip(i + 1));
        lemma_occurrences_add(b.take(i).push(entry), b.skip(i + 1), name);
        lemma_occurrences_add(b.take(i), b.skip(i + 1), name);
        lemma_occurrences_push(b.take(i), entry, name);
    }
}

} // verus!
