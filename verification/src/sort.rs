//! Ascending sorts by one attribute.

use std::cmp::Ordering;
use vstd::prelude::*;
use crate::cluster::{Cluster, Delta};
use crate::order::{
    lemma_same_records_len, lemma_sorted_values_unique, same_records, same_values, sorted_by,
};

verus! {

/// Orders two records by the attribute that `delta` names.
pub fn order_by_delta(a: &Cluster, b: &Cluster, delta: &Delta) -> (o: Ordering)
    ensures
        o == Ordering::Less <==> a.key(*delta) < b.key(*delta),
        o == Ordering::Equal <==> a.key(*delta) == b.key(*delta),
        o == Ordering::Greater <==> a.key(*delta) > b.key(*delta),
{
    let x = a.get_cluster_delta(delta);
    let y = b.get_cluster_delta(delta);
    if x < y {
        Ordering::Less
    } else if x == y {
        Ordering::Equal
    } else {
        Ordering::Greater
    }
}

/// Sorts with the standard library's `sort_by` on slices, ordering the
/// records by [`order_by_delta`].
///
/// Believed, not proved: `sort_by` leaves the slice ascending by the order
/// it is given, and rearranges the records without adding or losing any.
/// The order it is given here is total, so the call does not panic.
#[verifier::external_body]
fn sort_slice_by(v: &mut [Cluster], delta: &Delta)
    ensures
        sorted_by(final(v)@, *delta),
        same_records(final(v)@, old(v)@),
{
    v.sort_by(|a, b| order_by_delta(a, b, delta));
}

/// Sorts the collection ascending by the attribute that `delta` names.
///
/// The result holds the records it held before. Records with equal values
/// of `delta` may come out in any order; a collection that was ascending by
/// `delta` keeps its values of `delta` in place.
pub fn sort_by_delta(v: &mut [Cluster], delta: &Delta)
    ensures
        sorted_by(final(v)@, *delta),
        same_records(final(v)@, old(v)@),
        final(v)@.len() == old(v)@.len(),
        sorted_by(old(v)@, *delta) ==> same_values(final(v)@, old(v)@, *delta),
{
    sort_slice_by(v, delta);
    proof {
        lemma_same_records_len(v@, old(v)@);
        if sorted_by(old(v)@, *delta) {
            lemma_sorted_values_unique(v@, old(v)@, *delta);
        }
    }
}

/// Sorts the collection ascending by the first attribute.
pub fn sort_by_delta0(v: &mut [Cluster])
    ensures
        sorted_by(final(v)@, Delta::Delta0),
        same_records(final(v)@, old(v)@),
        final(v)@.len() == old(v)@.len(),
        sorted_by(old(v)@, Delta::Delta0) ==> same_values(final(v)@, old(v)@, Delta::Delta0),
{
    sort_by_delta(v, &Delta::Delta0);
}

/// Sorts the collection ascending by the second attribute.
pub fn sort_by_delta1(v: &mut [Cluster])
    ensures
        sorted_by(final(v)@, Delta::Delta1),
        same_records(final(v)@, old(v)@),
        final(v)@.len() == old(v)@.len(),
        sorted_by(old(v)@, Delta::Delta1) ==> same_values(final(v)@, old(v)@, Delta::Delta1),
{
    sort_by_delta(v, &Delta::Delta1);
}

/// Sorts the collection ascending by the third attribute.
pub fn sort_by_delta2(v: &mut [Cluster])
    ensures
        sorted_by(final(v)@, Delta::Delta2),
        same_records(final(v)@, old(v)@),
        final(v)@.len() == old(v)@.len(),
        sorted_by(old(v)@, Delta::Delta2) ==> same_values(final(v)@, old(v)@, Delta::Delta2),
{
    sort_by_delta(v, &Delta::Delta2);
}

} // verus!
