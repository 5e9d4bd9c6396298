//! The order of a ranking: rows by falling count, rows of equal count in the order they had.

use crate::code_file::FileCount;
use vstd::prelude::*;

verus! {

/// The rows whose count is exactly `c`, in the order they have in `rows`.
pub open spec fn with_count(rows: Seq<FileCount>, c: nat) -> Seq<FileCount> {
    rows.filter(|r: FileCount| r.count == c)
}

/// The rows whose count is at most `top`, in the order they have in `rows`.
pub open spec fn at_most(rows: Seq<FileCount>, top: nat) -> Seq<FileCount> {
    rows.filter(|r: FileCount| r.count <= top)
}

/// No row is followed by one with a greater count.
pub open spec fn is_descending(rows: Seq<FileCount>) -> bool {
    forall|i: int, j: int| 0 <= i < j < rows.len() ==> rows[i].count >= rows[j].count
}

/// The greatest count among the rows, zero when there is none.
pub open spec fn greatest_count(rows: Seq<FileCount>) -> nat
    decreases rows.len(),
{
    if rows.len() == 0 {
        0
    } else {
        let before = greatest_count(rows.drop_last());
        if rows.last().count > before {
            rows.last().count
        } else {
            before
        }
    }
}

/// The rows with a count of at most `top`: first those that have `top`, then those that have
/// `top - 1`, and so on down to zero, each group in the order it has in `rows`.
pub open spec fn ranked_from(rows: Seq<FileCount>, top: nat) -> Seq<FileCount>
    decreases top,
{
    if top == 0 {
        with_count(rows, 0)
    } else {
        with_count(rows, top) + ranked_from(rows, (top - 1) as nat)
    }
}

/// All the rows by falling count; rows with the same count keep the order they have in `rows`.
pub open spec fn by_count_descending(rows: Seq<FileCount>) -> Seq<FileCount> {
    ranked_from(rows, greatest_count(rows))
}

/// The first `limit` rows by falling count, or all of them where there are fewer.
pub open spec fn ranking(rows: Seq<FileCount>, limit: nat) -> Seq<FileCount> {
    let sorted = by_count_descending(rows);
    if limit < sorted.len() {
        sorted.take(limit as int)
    } else {
        sorted
    }
}

/// A sequence is the stable descending arrangement of another when its counts never rise and
/// each count's rows are the same, in the same order, in both.
pub open spec fn is_stable_descending_of(sorted: Seq<FileCount>, rows: Seq<FileCount>) -> bool {
    &&& is_descending(sorted)
    &&& forall|c: nat| #[trigger] with_count(sorted, c) == with_count(rows, c)
}

proof fn lemma_with_count_push(rows: Seq<FileCount>, row: FileCount, c: nat)
    ensures
        with_count(rows.push(row), c) == if row.count == c {
            with_count(rows, c).push(row)
        } else {
            with_count(rows, c)
        },
{
    rows.lemma_filter_push(row, |r: FileCount| r.count == c);
}

proof fn lemma_at_most_push(rows: Seq<FileCount>, row: FileCount, top: nat)
    ensures
        at_most(rows.push(row), top) == if row.count <= top {
            at_most(rows, top).push(row)
        } else {
            at_most(rows, top)
        },
{
    rows.lemma_filter_push(row, |r: FileCount| r.count <= top);
}

/// No row has a count above the greatest.
pub proof fn lemma_greatest_count_bounds(rows: Seq<FileCount>, i: int)
    requires
        0 <= i < rows.len(),
    ensures
        rows[i].count <= greatest_count(rows),
    decreases rows.len(),
{
    if i < rows.len() - 1 {
        lemma_greatest_count_bounds(rows.drop_last(), i);
    }
}

/// Where every count is at most `top`, `at_most` keeps every row.
proof fn lemma_at_most_all(rows: Seq<FileCount>, top: nat)
    requires
        forall|i: int| 0 <= i < rows.len() ==> rows[i].count <= top,
    ensures
        at_most(rows, top) == rows,
    decreases rows.len(),
{
    if rows.len() > 0 {
        let before = rows.drop_last();
        lemma_at_most_all(before, top);
        assert(rows == before.push(rows.last()));
        lemma_at_most_push(before, rows.last(), top);
    }
}

/// Where every count is above `top`, `at_most` keeps nothing.
proof fn lemma_at_most_none(rows: Seq<FileCount>, top: nat)
    requires
        forall|i: int| 0 <= i < rows.len() ==> rows[i].count > top,
    ensures
        at_most(rows, top) == Seq::<FileCount>::empty(),
    decreases rows.len(),
{
    if rows.len() > 0 {
        let before = rows.drop_last();
        lemma_at_most_none(before, top);
        assert(rows == before.push(rows.last()));
        lemma_at_most_push(before, rows.last(), top);
    }
}

/// Where no row has the count `c`, `with_count` keeps nothing.
proof fn lemma_with_count_none(rows: Seq<FileCount>, c: nat)
    requires
        forall|i: int| 0 <= i < rows.len() ==> rows[i].count != c,
    ensures
        with_count(rows, c) == Seq::<FileCount>::empty(),
    decreases rows.len(),
{
    if rows.len() > 0 {
        let before = rows.drop_last();
        lemma_with_count_none(before, c);
        assert(rows == before.push(rows.last()));
        lemma_with_count_push(before, rows.last(), c);
    }
}

/// In a descending sequence the rows of at most `top` are those of exactly `top`, then those
/// below.
proof fn lemma_at_most_splits(rows: Seq<FileCount>, top: nat)
    requires
        is_descending(rows),
        top > 0,
    ensures
        at_most(rows, top) == with_count(rows, top) + at_most(rows, (top - 1) as nat),
    decreases rows.len(),
{
    let below = (top - 1) as nat;
    if rows.len() > 0 {
        let before = rows.drop_last();
        let row = rows.last();
        assert(rows == before.push(row));
        lemma_at_most_splits(before, top);
        lemma_at_most_push(before, row, top);
        lemma_at_most_push(before, row, below);
        lemma_with_count_push(before, row, top);
        if row.count == top {
            lemma_at_most_none(before, below);
        }
    }
}

/// In a descending sequence the rows of at most `top` already stand by falling count.
proof fn lemma_descending_is_ranked(rows: Seq<FileCount>, top: nat)
    requires
        is_descending(rows),
    ensures
        ranked_from(rows, top) == at_most(rows, top),
    decreases top,
{
    if top == 0 {
        let exactly = |r: FileCount| r.count == 0;
        let upto = |r: FileCount| r.count <= 0;
        assert(exactly =~= upto);
    } else {
        lemma_descending_is_ranked(rows, (top - 1) as nat);
        lemma_at_most_splits(rows, top);
    }
}

/// Sequences that agree count by count are ranked alike.
proof fn lemma_ranked_from_agrees(a: Seq<FileCount>, b: Seq<FileCount>, top: nat)
    requires
        forall|c: nat| #[trigger] with_count(a, c) == with_count(b, c),
    ensures
        ranked_from(a, top) == ranked_from(b, top),
    decreases top,
{
    if top > 0 {
        lemma_ranked_from_agrees(a, b, (top - 1) as nat);
    }
}

/// Counts above the greatest add nothing to a ranking.
proof fn lemma_ranked_from_above(rows: Seq<FileCount>, top: nat)
    requires
        top >= greatest_count(rows),
    ensures
        ranked_from(rows, top) == by_count_descending(rows),
    decreases top,
{
    if top > greatest_count(rows) {
        assert forall|i: int| 0 <= i < rows.len() implies rows[i].count != top by {
            lemma_greatest_count_bounds(rows, i);
        }
        lemma_with_count_none(rows, top);
        lemma_ranked_from_above(rows, (top - 1) as nat);
    }
}

/// A sequence has one stable descending arrangement only: the one that
/// [`by_count_descending`] names.
pub proof fn lemma_stable_descending_is_unique(sorted: Seq<FileCount>, rows: Seq<FileCount>)
    requires
        is_stable_descending_of(sorted, rows),
    ensures
        sorted == by_count_descending(rows),
{
    let top = if greatest_count(sorted) > greatest_count(rows) {
        greatest_count(sorted)
    } else {
        greatest_count(rows)
    };
    assert forall|i: int| 0 <= i < sorted.len() implies sorted[i].count <= top by {
        lemma_greatest_count_bounds(sorted, i);
    }
    lemma_at_most_all(sorted, top);
    lemma_descending_is_ranked(sorted, top);
    lemma_ranked_from_agrees(sorted, rows, top);
    lemma_ranked_from_above(rows, top);
}

/// Where every row has the count `c`, `with_count` keeps every row.
proof fn lemma_with_count_all(rows: Seq<FileCount>, c: nat)
    requires
        forall|i: int| 0 <= i < rows.len() ==> rows[i].count == c,
    ensures
        with_count(rows, c) == rows,
    decreases rows.len(),
{
    if rows.len() > 0 {
        let before = rows.drop_last();
        lemma_with_count_all(before, c);
        assert(rows == before.push(rows.last()));
        lemma_with_count_push(before, rows.last(), c);
    }
}

/// Every row that `ranked_from` holds has a count of at most `top`.
proof fn lemma_ranked_from_bound(rows: Seq<FileCount>, top: nat, i: int)
    requires
        0 <= i < ranked_from(rows, top).len(),
    ensures
        ranked_from(rows, top)[i].count <= top,
    decreases top,
{
    let head = with_count(rows, top);
    if i >= head.len() {
        lemma_ranked_from_bound(rows, (top - 1) as nat, i - head.len());
    }
}

proof fn lemma_ranked_from_descends(rows: Seq<FileCount>, top: nat)
    ensures
        is_descending(ranked_from(rows, top)),
    decreases top,
{
    let head = with_count(rows, top);
    let all = ranked_from(rows, top);
    if top > 0 {
        lemma_ranked_from_descends(rows, (top - 1) as nat);
    }
    assert forall|i: int, j: int| 0 <= i < j < all.len() implies all[i].count
        >= all[j].count by {
        if i < head.len() && head.len() <= j {
            lemma_ranked_from_bound(rows, (top - 1) as nat, j - head.len());
        }
    }
}

/// The rows of one count within a ranking are those of the sequence that was ranked.
proof fn lemma_ranked_from_keeps_groups(rows: Seq<FileCount>, top: nat, c: nat)
    ensures
        with_count(ranked_from(rows, top), c) == if c <= top {
            with_count(rows, c)
        } else {
            Seq::<FileCount>::empty()
        },
    decreases top,
{
    let head = with_count(rows, top);
    if c == top {
        lemma_with_count_all(head, c);
    } else {
        lemma_with_count_none(head, c);
    }
    if top > 0 {
        lemma_ranked_from_keeps_groups(rows, (top - 1) as nat, c);
    }
}

proof fn lemma_at_most_permutes(rows: Seq<FileCount>, top: nat)
    requires
        top > 0,
    ensures
        at_most(rows, top).to_multiset() == with_count(rows, top).to_multiset().add(
            at_most(rows, (top - 1) as nat).to_multiset(),
        ),
    decreases rows.len(),
{
    broadcast use vstd::seq_lib::to_multiset_build;

    let below = (top - 1) as nat;
    if rows.len() == 0 {
        lemma_at_most_all(rows, top);
        lemma_at_most_all(rows, below);
        lemma_with_count_none(rows, top);
        Seq::<FileCount>::empty().to_multiset_ensures();
    } else {
        let before = rows.drop_last();
        let row = rows.last();
        assert(rows == before.push(row));
        lemma_at_most_permutes(before, top);
        lemma_at_most_push(before, row, top);
        lemma_at_most_push(before, row, below);
        lemma_with_count_push(before, row, top);
    }
}

proof fn lemma_ranked_from_permutes(rows: Seq<FileCount>, top: nat)
    ensures
        ranked_from(rows, top).to_multiset() == at_most(rows, top).to_multiset(),
    decreases top,
{
    if top == 0 {
        let exactly = |r: FileCount| r.count == 0;
        let upto = |r: FileCount| r.count <= 0;
        assert(exactly =~= upto);
    } else {
        lemma_ranked_from_permutes(rows, (top - 1) as nat);
        lemma_at_most_permutes(rows, top);
        vstd::seq_lib::lemma_multiset_commutative(
            with_count(rows, top),
            ranked_from(rows, (top - 1) as nat),
        );
    }
}

/// Ranking rearranges: each row stands in the ranking as often as in the sequence that was
/// ranked, and the two are equally long.
pub proof fn lemma_by_count_descending_permutes(rows: Seq<FileCount>)
    ensures
        by_count_descending(rows).to_multiset() == rows.to_multiset(),
        by_count_descending(rows).len() == rows.len(),
        forall|row: FileCount| by_count_descending(rows).contains(row) <==> rows.contains(row),
{
    let top = greatest_count(rows);
    assert forall|i: int| 0 <= i < rows.len() implies rows[i].count <= top by {
        lemma_greatest_count_bounds(rows, i);
    }
    lemma_at_most_all(rows, top);
    lemma_ranked_from_permutes(rows, top);
    let sorted = by_count_descending(rows);
    sorted.to_multiset_ensures();
    rows.to_multiset_ensures();
    assert forall|row: FileCount| sorted.contains(row) <==> rows.contains(row) by {
        assert(rows.contains(row) <==> rows.to_multiset().count(row) > 0);
    }
}

/// What [`by_count_descending`] names is a stable descending arrangement of its argument:
/// the counts never rise, and rows of equal count stand as they stood.
pub proof fn lemma_by_count_descending_is_stable(rows: Seq<FileCount>)
    ensures
        is_stable_descending_of(by_count_descending(rows), rows),
{
    let top = greatest_count(rows);
    lemma_ranked_from_descends(rows, top);
    assert forall|c: nat| #[trigger]
        with_count(by_count_descending(rows), c) == with_count(rows, c) by {
        lemma_ranked_from_keeps_groups(rows, top, c);
        if c > top {
            assert forall|i: int| 0 <= i < rows.len() implies rows[i].count != c by {
                lemma_greatest_count_bounds(rows, i);
            }
            lemma_with_count_none(rows, c);
        }
    }
}

/// A ranking holds `limit` rows, or all rows where there are fewer; its counts never rise;
/// and each of its rows is one of the rows that were ranked.
pub proof fn lemma_ranking_properties(rows: Seq<FileCount>, limit: nat)
    ensures
        ranking(rows, limit).len() == if limit < rows.len() {
            limit
        } else {
            rows.len()
        },
        is_descending(ranking(rows, limit)),
        forall|i: int|
            0 <= i < ranking(rows, limit).len() ==> rows.contains(
                #[trigger] ranking(rows, limit)[i],
            ),
{
    lemma_by_count_descending_permutes(rows);
    lemma_by_count_descending_is_stable(rows);
}

} // verus!
