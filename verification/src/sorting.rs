//! Sorting counted files by falling count.

use crate::code_file::{counted_view, CodeFile};
use crate::ranking::{by_count_descending, is_descending, lemma_stable_descending_is_unique, with_count};
use itertools::Itertools;
use std::cmp::Ordering;
use vstd::prelude::*;

verus! {

/// Compares two counts so that the greater one sorts first.
pub fn descending(a: u32, b: u32) -> (order: Ordering)
    ensures
        order == Ordering::Less <==> a > b,
        order == Ordering::Equal <==> a == b,
        order == Ordering::Greater <==> a < b,
{
    if a > b {
        Ordering::Less
    } else if a < b {
        Ordering::Greater
    } else {
        Ordering::Equal
    }
}

/// Calls `Itertools::sorted_by` with [`descending`] on the counts. That method collects the
/// items and sorts them with the stable `slice::sort_by`. Trusted, not proved: the counts of
/// the result never rise, and for each count the rows that have it are those of the
/// argument, in the order they had there.
#[verifier::external_body]
fn sorted_by_count(rows: Vec<(CodeFile, u32)>) -> (sorted: Vec<(CodeFile, u32)>)
    ensures
        is_descending(counted_view(sorted@)),
        forall|c: nat| #[trigger]
            with_count(counted_view(sorted@), c) == with_count(counted_view(rows@), c),
{
    rows.into_iter().sorted_by(|a, b| descending(a.1, b.1)).collect()
}

/// Sorts counted files by falling count. Files with equal counts keep their order.
pub fn sort_by_count_descending(rows: Vec<(CodeFile, u32)>) -> (sorted: Vec<(CodeFile, u32)>)
    ensures
        counted_view(sorted@) == by_count_descending(counted_view(rows@)),
{
    let ghost before = counted_view(rows@);
    let sorted = sorted_by_count(rows);
    proof {
        lemma_stable_descending_is_unique(counted_view(sorted@), before);
    }
    sorted
}

} // verus!
