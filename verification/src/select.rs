//! Selection of the value of a given rank by repeated partitioning.

use vstd::prelude::*;
use crate::cluster::{Cluster, Delta};
use crate::order::{
    at_sorted_index, kth_smallest, lemma_count_below_same_records,
    lemma_kth_smallest_at_sorted_index, lemma_partitioned_is_kth, lemma_same_records_member,
    partitioned_at,
};
use crate::partition::{lemma_rearranged_wider, random_partition, rearranged_within};

verus! {

/// Why a selection was refused.
#[derive(Debug, Clone, Copy, PartialEq, Eq, Structural)]
pub enum SelectError {
    /// The collection is empty, the range does not lie inside it, or the
    /// rank does not lie inside the range.
    InvalidArgument,
}

/// The arguments on which a selection is defined: a range `[l, r]` inside a
/// collection of `len` records, and a rank `k` inside the range.
pub open spec fn valid_selection(len: int, l: int, r: int, k: int) -> bool {
    0 <= l <= k <= r < len
}

/// No record of `[l, lo)` is larger than one of `[lo, r]`, and none of
/// `[l, hi]` is larger than one of `(hi, r]`.
spec fn window_bounded(s: Seq<Cluster>, l: int, r: int, lo: int, hi: int, delta: Delta) -> bool {
    &&& forall|i: int, j: int|
        l <= i < lo && lo <= j <= r ==> (#[trigger] s[i]).key(delta) <= (#[trigger] s[j]).key(delta)
    &&& forall|i: int, j: int|
        l <= i <= hi && hi < j <= r ==> (#[trigger] s[i]).key(delta) <= (#[trigger] s[j]).key(delta)
}

/// Rearranging the window keeps the records outside it bounded by it.
proof fn lemma_window_stays_bounded(
    after: Seq<Cluster>,
    before: Seq<Cluster>,
    l: int,
    r: int,
    lo: int,
    hi: int,
    delta: Delta,
)
    requires
        0 <= l <= lo <= hi <= r < before.len(),
        rearranged_within(after, before, lo, hi),
        window_bounded(before, l, r, lo, hi, delta),
    ensures
        window_bounded(after, l, r, lo, hi, delta),
{
    let a = after.subrange(lo, hi + 1);
    let b = before.subrange(lo, hi + 1);
    assert forall|i: int, j: int| l <= i < lo && lo <= j <= r implies (#[trigger] after[i]).key(
        delta,
    ) <= (#[trigger] after[j]).key(delta) by {
        if j <= hi {
            lemma_same_records_member(a, b, j - lo);
            let m = choose|m: int| 0 <= m < b.len() && b[m] == a[j - lo];
            assert(after[j] == before[m + lo]);
        }
    }
    assert forall|i: int, j: int| l <= i <= hi && hi < j <= r implies (#[trigger] after[i]).key(
        delta,
    ) <= (#[trigger] after[j]).key(delta) by {
        if lo <= i {
            lemma_same_records_member(a, b, i - lo);
            let m = choose|m: int| 0 <= m < b.len() && b[m] == a[i - lo];
            assert(after[i] == before[m + lo]);
        }
    }
}

/// The record that a range is partitioned at holds the value of its rank
/// among the records of the range.
pub proof fn lemma_partitioned_range_is_kth(s: Seq<Cluster>, l: int, r: int, k: int, delta: Delta)
    requires
        partitioned_at(s, l, r, k, delta),
    ensures
        kth_smallest(s.subrange(l, r + 1), k - l, delta, s[k].key(delta)),
{
    let range = s.subrange(l, r + 1);
    let x = s[k].key(delta);
    assert forall|i: int| 0 <= i < k - l implies (#[trigger] range[i]).key(delta) <= x by {
        assert(range[i] == s[i + l]);
    }
    assert forall|i: int| k - l < i <= r - l implies x <= (#[trigger] range[i]).key(delta) by {
        assert(range[i] == s[i + l]);
    }
    assert(range[k - l] == s[k]);
    lemma_partitioned_is_kth(range, k - l, delta);
}

/// Finds the value of `delta` that has rank `k` among the records of
/// `v[l..=r]`, where the rank of the smallest value is `l` and that of the
/// largest is `r`.
///
/// The records of the range are rearranged so that the range is partitioned
/// at `k`; the value returned is the one found there. It is the value that
/// stands at index `k` once the range is sorted ascending by `delta`, however
/// the pivots fall.
///
/// An empty collection, a range that does not lie inside the collection and a
/// rank outside the range are refused, and the collection is left as it was.
pub fn find_kth(v: &mut [Cluster], l: usize, r: usize, k: usize, delta: &Delta) -> (result: Result<
    u32,
    SelectError,
>)
    ensures
        result is Ok <==> valid_selection(old(v)@.len() as int, l as int, r as int, k as int),
        result is Err ==> result == Err::<u32, SelectError>(SelectError::InvalidArgument),
        result is Err ==> final(v)@ == old(v)@,
        result is Ok ==> rearranged_within(final(v)@, old(v)@, l as int, r as int),
        result is Ok ==> partitioned_at(final(v)@, l as int, r as int, k as int, *delta),
        result is Ok ==> final(v)@[k as int].key(*delta) == result->Ok_0,
        result is Ok ==> kth_smallest(
            old(v)@.subrange(l as int, r + 1),
            k - l,
            *delta,
            result->Ok_0 as int,
        ),
        result is Ok ==> at_sorted_index(
            old(v)@.subrange(l as int, r + 1),
            k - l,
            *delta,
            result->Ok_0 as int,
        ),
        result is Ok && l == 0 && r + 1 == old(v)@.len() ==> at_sorted_index(
            old(v)@,
            k as int,
            *delta,
            result->Ok_0 as int,
        ),
{
    if !(l <= k && k <= r && r < v.len()) {
        return Err(SelectError::InvalidArgument);
    }
    let ghost before = v@;
    let mut lo: usize = l;
    let mut hi: usize = r;
    proof {
        assert(v@.subrange(l as int, r + 1) =~= before.subrange(l as int, r + 1));
    }
    loop
        invariant
            l <= lo <= k <= hi <= r < v@.len(),
            before == old(v)@,
            rearranged_within(v@, before, l as int, r as int),
            window_bounded(v@, l as int, r as int, lo as int, hi as int, *delta),
        decreases hi - lo,
    {
        let ghost entry = v@;
        let p = random_partition(v, lo, hi, delta);
        proof {
            lemma_window_stays_bounded(v@, entry, l as int, r as int, lo as int, hi as int, *delta);
            lemma_rearranged_wider(v@, entry, l as int, r as int, lo as int, hi as int);
        }
        if p == k {
            let x = v[p].get_cluster_delta(delta);
            proof {
                lemma_partitioned_range_is_kth(v@, l as int, r as int, k as int, *delta);
                let now = v@.subrange(l as int, r + 1);
                let then = before.subrange(l as int, r + 1);
                lemma_count_below_same_records(now, then, *delta, x as int);
                lemma_count_below_same_records(now, then, *delta, x + 1);
                lemma_kth_smallest_at_sorted_index(then, k - l, *delta, x as int);
                if l == 0 && r + 1 == before.len() {
                    assert(then =~= before);
                }
            }
            return Ok(x);
        } else if p < k {
            lo = p + 1;
        } else {
            hi = p - 1;
        }
    }
}

} // verus!
