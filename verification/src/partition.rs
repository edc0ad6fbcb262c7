//! In-place partitioning of a range around a pivot record.

use rand::Rng;
use vstd::prelude::*;
use crate::cluster::{Cluster, Delta};
use crate::order::{
    count_below, lemma_count_below_at_least, lemma_count_below_at_most,
    lemma_count_below_same_records, lemma_swap_in_range, lemma_swap_same_records, partitioned_at,
    same_records, swapped,
};

verus! {

/// Exchanges the records at `i` and `j`.
fn swap(v: &mut [Cluster], i: usize, j: usize)
    requires
        i < old(v)@.len(),
        j < old(v)@.len(),
    ensures
        final(v)@ == swapped(old(v)@, i as int, j as int),
{
    let a = v[i];
    let b = v[j];
    v[i] = b;
    v[j] = a;
}

/// `after` differs from `before` only by a rearrangement of the records at
/// `[l, r]`: the range holds the same records, and so does the whole
/// sequence; every record outside the range is where it was.
pub open spec fn rearranged_within(
    after: Seq<Cluster>,
    before: Seq<Cluster>,
    l: int,
    r: int,
) -> bool {
    &&& after.len() == before.len()
    &&& same_records(after, before)
    &&& same_records(after.subrange(l, r + 1), before.subrange(l, r + 1))
    &&& forall|i: int| 0 <= i < l || r < i < before.len() ==> after[i] == before[i]
}

/// An exchange inside `[l, r]` after a rearrangement within `[l, r]` is
/// again a rearrangement within `[l, r]`.
proof fn lemma_swap_rearranges(
    before: Seq<Cluster>,
    s: Seq<Cluster>,
    l: int,
    r: int,
    i: int,
    j: int,
)
    requires
        rearranged_within(s, before, l, r),
        0 <= l <= i <= r < s.len(),
        l <= j <= r,
    ensures
        rearranged_within(swapped(s, i, j), before, l, r),
{
    lemma_swap_same_records(s, i, j);
    lemma_swap_in_range(s, l, r, i, j);
    lemma_swap_same_records(s.subrange(l, r + 1), i - l, j - l);
}

/// Rearrangements within one range compose.
pub proof fn lemma_rearranged_twice(
    a: Seq<Cluster>,
    b: Seq<Cluster>,
    c: Seq<Cluster>,
    l: int,
    r: int,
)
    requires
        rearranged_within(b, a, l, r),
        rearranged_within(c, b, l, r),
    ensures
        rearranged_within(c, a, l, r),
{
}

/// A rearrangement within a range is one within any range around it.
pub proof fn lemma_rearranged_wider(
    after: Seq<Cluster>,
    before: Seq<Cluster>,
    l: int,
    r: int,
    lo: int,
    hi: int,
)
    requires
        0 <= l <= lo <= hi <= r < before.len(),
        rearranged_within(after, before, lo, hi),
    ensures
        rearranged_within(after, before, l, r),
{
    let a = after.subrange(l, r + 1);
    let b = before.subrange(l, r + 1);
    let left = before.subrange(l, lo);
    let right = before.subrange(hi + 1, r + 1);
    assert(after.subrange(l, lo) =~= left);
    assert(after.subrange(hi + 1, r + 1) =~= right);
    assert(a =~= left + after.subrange(lo, hi + 1) + right);
    assert(b =~= left + before.subrange(lo, hi + 1) + right);
    vstd::seq_lib::lemma_multiset_commutative(left, after.subrange(lo, hi + 1));
    vstd::seq_lib::lemma_multiset_commutative(left + after.subrange(lo, hi + 1), right);
    vstd::seq_lib::lemma_multiset_commutative(left, before.subrange(lo, hi + 1));
    vstd::seq_lib::lemma_multiset_commutative(left + before.subrange(lo, hi + 1), right);
}

/// The arrangement that the scan ends with, taken up at index `j` with `i`
/// as the boundary: each record of `[j, r)` with a smaller value than the
/// one at `r` is exchanged with the record at the boundary, which then
/// advances; at the end the record at `r` is exchanged with the one at the
/// boundary.
pub open spec fn scan_from(s: Seq<Cluster>, i: int, j: int, r: int, delta: Delta) -> Seq<Cluster>
    decreases r - j,
{
    if j >= r {
        swapped(s, i, r)
    } else if s[j].key(delta) < s[r].key(delta) {
        scan_from(swapped(s, i, j), i + 1, j + 1, r, delta)
    } else {
        scan_from(s, i, j + 1, r, delta)
    }
}

/// Partitions `v[l..=r]` around the record at `r`, by the attribute `delta`.
///
/// The pivot record moves to the returned index `p`. Records of the range
/// with a smaller value than the pivot's end up before `p`, all others
/// after it, so `p - l` is the pivot's rank in the range: the number of
/// records there with a strictly smaller value. Nothing outside the range
/// moves, and no record is added or lost.
pub fn partition(v: &mut [Cluster], l: usize, r: usize, delta: &Delta) -> (p: usize)
    requires
        l <= r < old(v)@.len(),
    ensures
        l <= p <= r,
        rearranged_within(final(v)@, old(v)@, l as int, r as int),
        final(v)@[p as int] == old(v)@[r as int],
        partitioned_at(final(v)@, l as int, r as int, p as int, *delta),
        forall|i: int|
            l <= i < p ==> (#[trigger] final(v)@[i]).key(*delta) < old(v)@[r as int].key(*delta),
        p - l == count_below(
            old(v)@.subrange(l as int, r + 1),
            *delta,
            old(v)@[r as int].key(*delta),
        ),
        final(v)@ == scan_from(old(v)@, l as int, l as int, r as int, *delta),
{
    let ghost before = v@;
    let ghost pivot = v@[r as int].key(*delta);
    let mut i: usize = l;
    let mut j: usize = l;
    proof {
        assert(v@.subrange(l as int, r + 1) =~= before.subrange(l as int, r + 1));
    }
    while j < r
        invariant
            l <= i <= j <= r < v@.len(),
            rearranged_within(v@, before, l as int, r as int),
            v@[r as int] == before[r as int],
            pivot == before[r as int].key(*delta),
            forall|x: int| l <= x < i ==> (#[trigger] v@[x]).key(*delta) < pivot,
            forall|x: int| i <= x < j ==> (#[trigger] v@[x]).key(*delta) >= pivot,
            scan_from(v@, i as int, j as int, r as int, *delta) == scan_from(
                before,
                l as int,
                l as int,
                r as int,
                *delta,
            ),
        decreases r - j,
    {
        if v[j].get_cluster_delta(delta) < v[r].get_cluster_delta(delta) {
            proof {
                lemma_swap_rearranges(before, v@, l as int, r as int, i as int, j as int);
            }
            swap(v, i, j);
            i += 1;
        }
        j += 1;
    }
    proof {
        lemma_swap_rearranges(before, v@, l as int, r as int, i as int, r as int);
    }
    swap(v, i, r);
    proof {
        let range = v@.subrange(l as int, r + 1);
        lemma_count_below_at_most(range, *delta, pivot, i - l);
        lemma_count_below_at_least(range, *delta, pivot, i - l);
        lemma_count_below_same_records(range, before.subrange(l as int, r + 1), *delta, pivot);
    }
    i
}

/// Partitions `v[l..=r]` around the record at `pivot`, which is first
/// exchanged with the record at `r`.
pub fn partition_at(v: &mut [Cluster], l: usize, r: usize, pivot: usize, delta: &Delta) -> (p:
    usize)
    requires
        l <= pivot <= r < old(v)@.len(),
    ensures
        l <= p <= r,
        rearranged_within(final(v)@, old(v)@, l as int, r as int),
        final(v)@[p as int] == old(v)@[pivot as int],
        partitioned_at(final(v)@, l as int, r as int, p as int, *delta),
        forall|i: int|
            l <= i < p ==> (#[trigger] final(v)@[i]).key(*delta) < old(v)@[pivot as int].key(
                *delta,
            ),
        p - l == count_below(
            old(v)@.subrange(l as int, r + 1),
            *delta,
            old(v)@[pivot as int].key(*delta),
        ),
        final(v)@ == scan_from(
            swapped(old(v)@, pivot as int, r as int),
            l as int,
            l as int,
            r as int,
            *delta,
        ),
{
    let ghost before = v@;
    proof {
        assert(v@.subrange(l as int, r + 1) =~= before.subrange(l as int, r + 1));
        lemma_swap_rearranges(before, v@, l as int, r as int, pivot as int, r as int);
    }
    swap(v, pivot, r);
    let ghost mid = v@;
    let p = partition(v, l, r, delta);
    proof {
        lemma_rearranged_twice(before, mid, v@, l as int, r as int);
        lemma_count_below_same_records(
            mid.subrange(l as int, r + 1),
            before.subrange(l as int, r + 1),
            *delta,
            before[pivot as int].key(*delta),
        );
    }
    p
}

/// Draws an index from `[l, r]` by `rand::Rng::gen_range` on the thread's
/// generator, `rand::thread_rng()`, with the inclusive range `l..=r`.
///
/// Believed, not proved: the index drawn lies in `[l, r]`. Which one it is
/// depends on chance, so nothing more is stated. `gen_range` panics on an
/// empty range, which `l <= r` rules out.
#[verifier::external_body]
fn random_index(l: usize, r: usize) -> (pivot: usize)
    requires
        l <= r,
    ensures
        l <= pivot <= r,
{
    rand::thread_rng().gen_range(l..=r)
}

/// Partitions `v[l..=r]` around a record of the range drawn at random.
///
/// Whatever record is drawn, it ends at the returned index `p`, with the
/// records of the range that have a smaller value before it and all others
/// after it; `p - l` is its rank in the range.
pub fn random_partition(v: &mut [Cluster], l: usize, r: usize, delta: &Delta) -> (p: usize)
    requires
        l <= r < old(v)@.len(),
    ensures
        l <= p <= r,
        rearranged_within(final(v)@, old(v)@, l as int, r as int),
        partitioned_at(final(v)@, l as int, r as int, p as int, *delta),
        forall|i: int|
            l <= i < p ==> (#[trigger] final(v)@[i]).key(*delta) < final(v)@[p as int].key(*delta),
        p - l == count_below(
            old(v)@.subrange(l as int, r + 1),
            *delta,
            final(v)@[p as int].key(*delta),
        ),
        exists|pivot: int|
            l <= pivot <= r && final(v)@[p as int] == old(v)@[pivot] && final(v)@ == scan_from(
                #[trigger] swapped(old(v)@, pivot, r as int),
                l as int,
                l as int,
                r as int,
                *delta,
            ),
{
    let pivot = random_index(l, r);
    partition_at(v, l, r, pivot, delta)
}

} // verus!
