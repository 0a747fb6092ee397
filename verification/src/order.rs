//! Ordering objects by how many events relate to them.

use std::cmp::Ordering;
use itertools::Itertools;
use vstd::prelude::*;
use crate::index::ObjectIndex;

verus! {

/// The pairs of `entries` whose first component is `size`, in order.
pub open spec fn of_size(entries: Seq<(usize, ObjectIndex)>, size: usize) -> Seq<
    (usize, ObjectIndex),
> {
    entries.filter(|entry: (usize, ObjectIndex)| entry.0 == size)
}

/// Compares two pairs by their first components.
pub fn compare_sizes(a: &(usize, ObjectIndex), b: &(usize, ObjectIndex)) -> (order: Ordering)
    ensures
        match order {
            Ordering::Less => a.0 < b.0,
            Ordering::Equal => a.0 == b.0,
            Ordering::Greater => a.0 > b.0,
        },
{
    if a.0 < b.0 {
        Ordering::Less
    } else if a.0 == b.0 {
        Ordering::Equal
    } else {
        Ordering::Greater
    }
}

/// Sorts pairs by their first component, smallest first, with
/// `Itertools::sorted_by` and `compare_sizes`. That method collects the items
/// and sorts them with the stable `slice::sort_by`. The contract claims what
/// this amounts to: the result holds the same pairs as often as the argument,
/// the first components never decrease, and pairs with one first component
/// keep the order they came in.
#[verifier::external_body]
pub(crate) fn sorted_by_size(entries: Vec<(usize, ObjectIndex)>) -> (sorted: Vec<
    (usize, ObjectIndex),
>)
    ensures
        sorted@.to_multiset() == entries@.to_multiset(),
        forall|i: int, j: int| 0 <= i <= j < sorted@.len() ==> sorted@[i].0 <= sorted@[j].0,
        forall|size: usize| #[trigger] of_size(sorted@, size) == of_size(entries@, size),
{
    entries.into_iter().sorted_by(|a, b| compare_sizes(a, b)).collect()
}

} // verus!
