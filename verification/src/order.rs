//! What it means for a sequence of records to be ordered by one attribute,
//! and the facts about order that the algorithms rest on.

use vstd::prelude::*;
use crate::cluster::{Cluster, Delta};

verus! {

/// `a` and `b` hold the same records, each as often as the other.
pub open spec fn same_records(a: Seq<Cluster>, b: Seq<Cluster>) -> bool {
    a.to_multiset() == b.to_multiset()
}

/// Within `[l, r]` the record at `p` is no smaller by `delta` than those
/// before it and no larger than those after it.
pub open spec fn partitioned_at(s: Seq<Cluster>, l: int, r: int, p: int, delta: Delta) -> bool {
    &&& 0 <= l <= p <= r < s.len()
    &&& forall|i: int| l <= i < p ==> (#[trigger] s[i]).key(delta) <= s[p].key(delta)
    &&& forall|i: int| p < i <= r ==> s[p].key(delta) <= (#[trigger] s[i]).key(delta)
}

/// Exchanging the records at `i` and `j`.
pub open spec fn swapped(s: Seq<Cluster>, i: int, j: int) -> Seq<Cluster> {
    s.update(i, s[j]).update(j, s[i])
}

/// An exchange keeps the records of the whole sequence.
pub proof fn lemma_swap_same_records(s: Seq<Cluster>, i: int, j: int)
    requires
        0 <= i < s.len(),
        0 <= j < s.len(),
    ensures
        same_records(swapped(s, i, j), s),
{
    broadcast use vstd::seq_lib::group_to_multiset_ensures;
    vstd::seq_lib::to_multiset_update(s, i, s[j]);
    vstd::seq_lib::to_multiset_update(s.update(i, s[j]), j, s[i]);
    let m = s.to_multiset();
    assert(m.count(s[i]) > 0 && m.count(s[j]) > 0) by {
        assert(s.contains(s[i]));
        assert(s.contains(s[j]));
    }
    assert(swapped(s, i, j).to_multiset() =~= m);
}

/// An exchange inside `[l, r]` is an exchange on that range taken alone.
pub proof fn lemma_swap_in_range(s: Seq<Cluster>, l: int, r: int, i: int, j: int)
    requires
        0 <= l <= i <= r < s.len(),
        l <= j <= r,
    ensures
        swapped(s, i, j).subrange(l, r + 1) == swapped(s.subrange(l, r + 1), i - l, j - l),
{
    assert(swapped(s, i, j).subrange(l, r + 1) =~= swapped(s.subrange(l, r + 1), i - l, j - l));
}

/// Sequences of the same records are equally long.
pub proof fn lemma_same_records_len(a: Seq<Cluster>, b: Seq<Cluster>)
    requires
        same_records(a, b),
    ensures
        a.len() == b.len(),
{
    vstd::seq_lib::to_multiset_len(a);
    vstd::seq_lib::to_multiset_len(b);
}

/// Ascending by `delta`: no record has a larger value than one after it.
pub open spec fn sorted_by(s: Seq<Cluster>, delta: Delta) -> bool {
    forall|i: int, j: int| 0 <= i <= j < s.len() ==> s[i].key(delta) <= s[j].key(delta)
}

/// How many records of `s` have a value of `delta` below `bound`.
pub open spec fn count_below(s: Seq<Cluster>, delta: Delta, bound: int) -> nat
    decreases s.len(),
{
    if s.len() == 0 {
        0
    } else {
        let rest = count_below(s.drop_last(), delta, bound);
        if s.last().key(delta) < bound {
            rest + 1
        } else {
            rest
        }
    }
}

/// `x` is the value of rank `k` in `s`, counted from 0: at most `k` records
/// lie below `x`, and more than `k` lie at or below it.
pub open spec fn kth_smallest(s: Seq<Cluster>, k: int, delta: Delta, x: int) -> bool {
    count_below(s, delta, x) <= k < count_below(s, delta, x + 1)
}

/// `x` is what stands at index `k` once the records of `s` are sorted by
/// `delta`: every ascending arrangement of them holds the value `x` there.
pub open spec fn at_sorted_index(s: Seq<Cluster>, k: int, delta: Delta, x: int) -> bool {
    forall|sorted: Seq<Cluster>|
        same_records(s, sorted) && #[trigger] sorted_by(sorted, delta) ==> sorted[k].key(delta) == x
}

/// `a` and `b` hold, index by index, the same values of `delta`.
pub open spec fn same_values(a: Seq<Cluster>, b: Seq<Cluster>, delta: Delta) -> bool {
    &&& a.len() == b.len()
    &&& forall|k: int| 0 <= k < a.len() ==> (#[trigger] a[k]).key(delta) == b[k].key(delta)
}

/// Where only the first `n` records can lie below `bound`, at most `n` do.
pub proof fn lemma_count_below_at_most(s: Seq<Cluster>, delta: Delta, bound: int, n: int)
    requires
        0 <= n <= s.len(),
        forall|j: int| n <= j < s.len() ==> (#[trigger] s[j]).key(delta) >= bound,
    ensures
        count_below(s, delta, bound) <= n,
    decreases s.len(),
{
    if s.len() > 0 {
        let m = if n == s.len() { n - 1 } else { n };
        lemma_count_below_at_most(s.drop_last(), delta, bound, m);
    }
}

/// Where the first `n` records all lie below `bound`, at least `n` do.
pub proof fn lemma_count_below_at_least(s: Seq<Cluster>, delta: Delta, bound: int, n: int)
    requires
        0 <= n <= s.len(),
        forall|j: int| 0 <= j < n ==> (#[trigger] s[j]).key(delta) < bound,
    ensures
        count_below(s, delta, bound) >= n,
    decreases s.len(),
{
    if s.len() > 0 {
        let m = if n == s.len() { n - 1 } else { n };
        lemma_count_below_at_least(s.drop_last(), delta, bound, m);
    }
}

/// Taking one record out lowers the count by one exactly if it lay below `bound`.
pub proof fn lemma_count_below_remove(s: Seq<Cluster>, delta: Delta, bound: int, i: int)
    requires
        0 <= i < s.len(),
    ensures
        count_below(s, delta, bound) == count_below(s.remove(i), delta, bound) + (if s[i].key(
            delta,
        ) < bound {
            1nat
        } else {
            0nat
        }),
    decreases s.len(),
{
    if i == s.len() - 1 {
        assert(s.remove(i) =~= s.drop_last());
    } else {
        lemma_count_below_remove(s.drop_last(), delta, bound, i);
        assert(s.remove(i).drop_last() =~= s.drop_last().remove(i));
        assert(s.remove(i).last() == s.last());
    }
}

/// The count does not depend on the order of the records.
pub proof fn lemma_count_below_same_records(
    a: Seq<Cluster>,
    b: Seq<Cluster>,
    delta: Delta,
    bound: int,
)
    requires
        same_records(a, b),
    ensures
        count_below(a, delta, bound) == count_below(b, delta, bound),
    decreases a.len(),
{
    broadcast use vstd::seq_lib::group_to_multiset_ensures;
    lemma_same_records_len(a, b);
    if a.len() > 0 {
        let e = a.last();
        assert(a.contains(e));
        assert(b.to_multiset().count(e) > 0);
        assert(b.contains(e));
        let j = b.index_of(e);
        assert(a.drop_last() =~= a.remove(a.len() - 1));
        assert(a.drop_last().to_multiset() == a.to_multiset().remove(e));
        assert(b.remove(j).to_multiset() == b.to_multiset().remove(e));
        lemma_count_below_same_records(a.drop_last(), b.remove(j), delta, bound);
        lemma_count_below_remove(b, delta, bound, j);
    }
}

/// Every record of a sequence occurs in any sequence of the same records.
pub proof fn lemma_same_records_member(a: Seq<Cluster>, b: Seq<Cluster>, i: int)
    requires
        same_records(a, b),
        0 <= i < a.len(),
    ensures
        exists|j: int| 0 <= j < b.len() && b[j] == a[i],
{
    broadcast use vstd::seq_lib::group_to_multiset_ensures;
    assert(a.contains(a[i]));
    assert(b.to_multiset().count(a[i]) > 0);
    assert(b.contains(a[i]));
}

/// A record that a whole sequence is partitioned at holds the value of
/// its own rank.
pub proof fn lemma_partitioned_is_kth(s: Seq<Cluster>, k: int, delta: Delta)
    requires
        partitioned_at(s, 0, s.len() - 1, k, delta),
    ensures
        kth_smallest(s, k, delta, s[k].key(delta)),
{
    let x = s[k].key(delta);
    lemma_count_below_at_most(s, delta, x, k);
    lemma_count_below_at_least(s, delta, x + 1, k + 1);
}

/// In a sorted sequence the record at index `k` holds the value of rank `k`.
pub proof fn lemma_sorted_index_is_kth(s: Seq<Cluster>, k: int, delta: Delta)
    requires
        sorted_by(s, delta),
        0 <= k < s.len(),
    ensures
        kth_smallest(s, k, delta, s[k].key(delta)),
{
    lemma_partitioned_is_kth(s, k, delta);
}

/// The value of rank `k` in a collection is the value found at index `k`
/// of any ascending arrangement of the same records.
pub proof fn lemma_kth_smallest_in_sorted(
    s: Seq<Cluster>,
    sorted: Seq<Cluster>,
    k: int,
    delta: Delta,
    x: int,
)
    requires
        same_records(s, sorted),
        sorted_by(sorted, delta),
        0 <= k < s.len(),
        kth_smallest(s, k, delta, x),
    ensures
        sorted[k].key(delta) == x,
{
    lemma_same_records_len(s, sorted);
    lemma_count_below_same_records(s, sorted, delta, x);
    lemma_count_below_same_records(s, sorted, delta, x + 1);
    let y = sorted[k].key(delta);
    if y < x {
        lemma_count_below_at_least(sorted, delta, x, k + 1);
    } else if y > x {
        lemma_count_below_at_most(sorted, delta, x + 1, k);
    }
}

/// Selection agrees with sorting: the value of rank `k` in a collection
/// stands at index `k` of every ascending arrangement of its records.
pub proof fn lemma_kth_smallest_at_sorted_index(s: Seq<Cluster>, k: int, delta: Delta, x: int)
    requires
        0 <= k < s.len(),
        kth_smallest(s, k, delta, x),
    ensures
        at_sorted_index(s, k, delta, x),
{
    assert forall|sorted: Seq<Cluster>|
        same_records(s, sorted) && #[trigger] sorted_by(sorted, delta) implies sorted[k].key(delta)
        == x by {
        lemma_kth_smallest_in_sorted(s, sorted, k, delta, x);
    }
}

/// Sorting what is sorted keeps the order of the values: two ascending
/// arrangements of the same records agree, index by index, on the attribute
/// they are ordered by.
pub proof fn lemma_sorted_values_unique(a: Seq<Cluster>, b: Seq<Cluster>, delta: Delta)
    requires
        same_records(a, b),
        sorted_by(a, delta),
        sorted_by(b, delta),
    ensures
        same_values(a, b, delta),
{
    lemma_same_records_len(a, b);
    assert forall|k: int| 0 <= k < a.len() implies (#[trigger] a[k]).key(delta) == b[k].key(
        delta,
    ) by {
        lemma_sorted_index_is_kth(a, k, delta);
        lemma_kth_smallest_in_sorted(a, b, k, delta, a[k].key(delta));
    }
}

} // verus!
