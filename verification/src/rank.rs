//! The ranking step: turns a frequency table into a sequence of
//! (record, count) pairs ordered by descending count.
//!
//! No tie-break among equal counts is promised: entries with equal counts may
//! come out in any order.

use crate::tally::{entries_view, FrequencyTable};
use core::cmp::Ordering;
use itertools::Itertools;
use vstd::prelude::*;

verus! {

/// Orders two entries by descending count: the entry with the larger count
/// comes first.
fn compare_by_count_desc(a: &(String, usize), b: &(String, usize)) -> (r: Ordering)
    ensures
        r == Ordering::Less <==> a.1 > b.1,
        r == Ordering::Equal <==> a.1 == b.1,
        r == Ordering::Greater <==> a.1 < b.1,
{
    if a.1 > b.1 {
        Ordering::Less
    } else if a.1 == b.1 {
        Ordering::Equal
    } else {
        Ordering::Greater
    }
}

/// Relies on itertools' `Itertools::sorted_by`, which collects the elements
/// into a vector and sorts it (stably, via `Vec::sort_by`) with the given
/// comparator: the result holds exactly the input entries, ordered by
/// descending count.
#[verifier::external_body]
fn sort_by_count_desc(entries: Vec<(String, usize)>) -> (r: Vec<(String, usize)>)
    ensures
        entries_view(r@).to_multiset() == entries_view(entries@).to_multiset(),
        r@.len() == entries@.len(),
        forall|i: int, j: int| 0 <= i <= j < r@.len() ==> r@[i].1 >= r@[j].1,
{
    entries.into_iter().sorted_by(|a, b| compare_by_count_desc(a, b)).collect()
}

/// Consumes a frequency table and returns its entries ordered by descending
/// count: the result holds exactly the table's entries, and wherever one
/// entry comes before another, its count is no smaller.
pub fn ranked_entries(table: FrequencyTable) -> (r: Vec<(String, usize)>)
    requires
        table.wf(),
    ensures
        entries_view(r@).to_multiset() == table.entry_seq().to_multiset(),
        r@.len() == table.entry_seq().len(),
        forall|i: int, j: int| 0 <= i <= j < r@.len() ==> r@[i].1 >= r@[j].1,
{
    let entries = table.into_entries();
    sort_by_count_desc(entries)
}

} // verus!
