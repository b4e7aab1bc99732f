//! Properties of an ordered sequence of bins: ordering, disjointness, and the
//! totals of weight and value that the sequence holds.
use vstd::prelude::*;
use crate::bin::{BinAddress, BinData};
use vstd::arithmetic::div_mod::{lemma_div_is_ordered, lemma_div_by_multiple};

verus! {

/// Each bin is proper and non-empty, and the intervals are pairwise disjoint
/// and in ascending order.
pub open spec fn bins_wf(s: Seq<(BinAddress, BinData)>) -> bool {
    &&& forall|i: int| 0 <= i < s.len() ==> (#[trigger] s[i]).0.wf() && s[i].1.wf()
    &&& forall|i: int, j: int| 0 <= i < j < s.len() ==> #[trigger] s[i].0.right < #[trigger] s[j].0.left
}

/// The total weight held by the bins.
pub open spec fn count_total(s: Seq<(BinAddress, BinData)>) -> int
    decreases s.len(),
{
    if s.len() == 0 {
        0
    } else {
        count_total(s.drop_last()) + s.last().1.count
    }
}

/// The total of the values folded into the bins.
pub open spec fn sum_total(s: Seq<(BinAddress, BinData)>) -> int
    decreases s.len(),
{
    if s.len() == 0 {
        0
    } else {
        sum_total(s.drop_last()) + s.last().1.sum
    }
}

/// The lowest value covered by a non-empty sequence of ordered bins.
pub open spec fn lo(s: Seq<(BinAddress, BinData)>) -> int {
    s[0].0.left as int
}

/// The highest value covered by a non-empty sequence of ordered bins.
pub open spec fn hi(s: Seq<(BinAddress, BinData)>) -> int {
    s.last().0.right as int
}

/// The payload of two bins folded together.
pub open spec fn data_union(a: BinData, b: BinData) -> BinData {
    BinData { count: (a.count + b.count) as u64, sum: (a.sum + b.sum) as i128 }
}

/// Appending a bin adds its weight and sum to the totals.
pub proof fn lemma_totals_push(s: Seq<(BinAddress, BinData)>, x: (BinAddress, BinData))
    ensures
        count_total(s.push(x)) == count_total(s) + x.1.count,
        sum_total(s.push(x)) == sum_total(s) + x.1.sum,
{
    assert(s.push(x).drop_last() =~= s);
}

/// Extending a prefix by one bin adds that bin's weight and sum.
pub proof fn lemma_totals_take(s: Seq<(BinAddress, BinData)>, i: int)
    requires
        0 <= i < s.len(),
    ensures
        count_total(s.take(i + 1)) == count_total(s.take(i)) + s[i].1.count,
        sum_total(s.take(i + 1)) == sum_total(s.take(i)) + s[i].1.sum,
{
    assert(s.take(i + 1).drop_last() =~= s.take(i));
}

/// Replacing a bin swaps its weight and sum in the totals.
pub proof fn lemma_totals_update(s: Seq<(BinAddress, BinData)>, i: int, x: (BinAddress, BinData))
    requires
        0 <= i < s.len(),
    ensures
        count_total(s.update(i, x)) == count_total(s) - s[i].1.count + x.1.count,
        sum_total(s.update(i, x)) == sum_total(s) - s[i].1.sum + x.1.sum,
    decreases s.len(),
{
    if i == s.len() - 1 {
        assert(s.update(i, x).drop_last() =~= s.drop_last());
    } else {
        assert(s.update(i, x).drop_last() =~= s.drop_last().update(i, x));
        lemma_totals_update(s.drop_last(), i, x);
    }
}

/// Inserting a bin anywhere adds its weight and sum to the totals.
pub proof fn lemma_totals_insert(s: Seq<(BinAddress, BinData)>, i: int, x: (BinAddress, BinData))
    requires
        0 <= i <= s.len(),
    ensures
        count_total(s.insert(i, x)) == count_total(s) + x.1.count,
        sum_total(s.insert(i, x)) == sum_total(s) + x.1.sum,
    decreases s.len(),
{
    if i == s.len() {
        assert(s.insert(i, x) =~= s.push(x));
        lemma_totals_push(s, x);
    } else {
        assert(s.insert(i, x).drop_last() =~= s.drop_last().insert(i, x));
        lemma_totals_insert(s.drop_last(), i, x);
    }
}

/// Removing a bin takes its weight and sum off the totals.
pub proof fn lemma_totals_remove(s: Seq<(BinAddress, BinData)>, i: int)
    requires
        0 <= i < s.len(),
    ensures
        count_total(s.remove(i)) == count_total(s) - s[i].1.count,
        sum_total(s.remove(i)) == sum_total(s) - s[i].1.sum,
    decreases s.len(),
{
    if i == s.len() - 1 {
        assert(s.remove(i) =~= s.drop_last());
    } else {
        assert(s.remove(i).drop_last() =~= s.drop_last().remove(i));
        lemma_totals_remove(s.drop_last(), i);
    }
}

/// Every bin's weight is part of the total, and the total is at least the
/// number of bins.
pub proof fn lemma_count_total_bounds(s: Seq<(BinAddress, BinData)>)
    requires
        forall|i: int| 0 <= i < s.len() ==> (#[trigger] s[i]).1.wf(),
    ensures
        count_total(s) >= s.len(),
        forall|i: int| 0 <= i < s.len() ==> #[trigger] s[i].1.count <= count_total(s),
    decreases s.len(),
{
    if s.len() > 0 {
        let t = s.drop_last();
        assert forall|i: int| 0 <= i < t.len() implies (#[trigger] t[i]).1.wf() by {
            assert(t[i] == s[i]);
        }
        lemma_count_total_bounds(t);
        assert forall|i: int| 0 <= i < s.len() implies #[trigger] s[i].1.count <= count_total(s) by {
            if i < s.len() - 1 {
                assert(t[i] == s[i]);
            }
        }
    }
}

/// The linear interpolation inside bin `b` at rank `target` of its weight.
pub open spec fn interp(b: (BinAddress, BinData), target: int) -> int {
    b.0.left + (b.0.right - b.0.left) * target / (b.1.count as int)
}

/// The estimate at rank `target`: the bins are walked in order, their
/// weights taken off the rank until it falls inside one, where it is
/// interpolated. No estimate where the rank lies past every bin.
pub open spec fn estimate_at(s: Seq<(BinAddress, BinData)>, target: int) -> Option<int>
    decreases s.len(),
{
    if s.len() == 0 {
        None
    } else if target < s[0].1.count {
        Some(interp(s[0], target))
    } else {
        estimate_at(s.drop_first(), target - s[0].1.count)
    }
}

/// A prefix holds no more weight than the whole.
pub proof fn lemma_prefix_total(s: Seq<(BinAddress, BinData)>, k: int)
    requires
        0 <= k <= s.len(),
    ensures
        count_total(s.take(k)) <= count_total(s),
    decreases s.len(),
{
    if k < s.len() {
        assert(s.drop_last().take(k) =~= s.take(k));
        lemma_prefix_total(s.drop_last(), k);
    } else {
        assert(s.take(k) =~= s);
    }
}

/// The lowest value covered by two sequences together, at least one of
/// them non-empty.
pub open spec fn joint_lo(a: Seq<(BinAddress, BinData)>, b: Seq<(BinAddress, BinData)>) -> int {
    if a.len() == 0 {
        lo(b)
    } else if b.len() == 0 {
        lo(a)
    } else if lo(a) <= lo(b) {
        lo(a)
    } else {
        lo(b)
    }
}

/// The highest value covered by two sequences together, at least one of
/// them non-empty.
pub open spec fn joint_hi(a: Seq<(BinAddress, BinData)>, b: Seq<(BinAddress, BinData)>) -> int {
    if a.len() == 0 {
        hi(b)
    } else if b.len() == 0 {
        hi(a)
    } else if hi(a) >= hi(b) {
        hi(a)
    } else {
        hi(b)
    }
}

/// `s` with the bins at `p` and `p + 1` replaced by one bin that spans both
/// and holds both payloads.
pub open spec fn merged_at(s: Seq<(BinAddress, BinData)>, p: int) -> Seq<(BinAddress, BinData)> {
    s.update(
        p,
        (BinAddress { left: s[p].0.left, right: s[p + 1].0.right }, data_union(s[p].1, s[p + 1].1)),
    ).remove(p + 1)
}

/// `out` comes from `s` by `n` merges of neighbouring bins.
pub open spec fn coarsens_in(s: Seq<(BinAddress, BinData)>, out: Seq<(BinAddress, BinData)>, n: nat) -> bool
    decreases n,
{
    if n == 0 {
        out == s
    } else {
        exists|mid: Seq<(BinAddress, BinData)>, p: int|
            0 <= p && p + 1 < mid.len()
            && coarsens_in(s, mid, (n - 1) as nat)
            && out == #[trigger] merged_at(mid, p)
    }
}

/// `out` comes from `s` by merging neighbouring bins, any number of times.
pub open spec fn coarsens(s: Seq<(BinAddress, BinData)>, out: Seq<(BinAddress, BinData)>) -> bool {
    exists|n: nat| coarsens_in(s, out, n)
}

/// Whether the bins before position `k` end below `y` and the others end at
/// or above it.
pub open spec fn is_split(s: Seq<(BinAddress, BinData)>, y: int, k: int) -> bool {
    &&& 0 <= k <= s.len()
    &&& forall|j: int| 0 <= j < k ==> #[trigger] s[j].0.right < y
    &&& forall|j: int| k <= j < s.len() ==> #[trigger] s[j].0.right >= y
}

/// The position at which the value `y` falls among ordered bins.
pub open spec fn split_point(s: Seq<(BinAddress, BinData)>, y: int) -> int {
    choose|k: int| #[trigger] is_split(s, y, k)
}

/// The bins after a point of value `y` and weight `w` is added and before
/// any compression: folded into the bin that covers `y`, or as a new bin
/// `[y, y]` in its place in the order.
pub open spec fn insert_point(s: Seq<(BinAddress, BinData)>, y: int, w: int) -> Seq<(BinAddress, BinData)> {
    let k = split_point(s, y);
    if k < s.len() && s[k].0.left <= y {
        s.update(k, (s[k].0, BinData { count: (s[k].1.count + w) as u64, sum: (s[k].1.sum + y) as i128 }))
    } else {
        s.insert(k, (BinAddress { left: y as i64, right: y as i64 }, BinData { count: w as u64, sum: y as i128 }))
    }
}

/// An estimate inside a bin lies between the bin's bounds.
pub proof fn lemma_interp_within(b: (BinAddress, BinData), t: int)
    requires
        b.0.wf(),
        b.1.wf(),
        0 <= t < b.1.count,
    ensures
        b.0.left <= interp(b, t) <= b.0.right,
{
    let w = b.0.right - b.0.left;
    let c = b.1.count as int;
    assert(0 <= w * t <= w * c) by (nonlinear_arith)
        requires w >= 0, 0 <= t < c;
    lemma_div_is_ordered(0, w * t, c);
    lemma_div_is_ordered(w * t, w * c, c);
    lemma_div_by_multiple(w, c);
}

/// Wherever it is defined, the estimate at any rank lies within the span of
/// the bins.
pub proof fn lemma_estimate_within_span(s: Seq<(BinAddress, BinData)>, t: int)
    requires
        bins_wf(s),
        t >= 0,
        estimate_at(s, t) is Some,
    ensures
        lo(s) <= estimate_at(s, t)->Some_0 <= hi(s),
    decreases s.len(),
{
    assert(s[0].0.wf() && s[0].1.wf());
    assert(s.last().0.wf());
    if s.len() > 1 {
        assert(s[0].0.right < s.last().0.left);
    }
    if t < s[0].1.count {
        lemma_interp_within(s[0], t);
    } else {
        let r = s.drop_first();
        assert forall|i: int| 0 <= i < r.len() implies (#[trigger] r[i]).0.wf() && r[i].1.wf() by {
            assert(r[i] == s[i + 1]);
        }
        assert forall|i: int, j: int| 0 <= i < j < r.len() implies #[trigger] r[i].0.right < #[trigger] r[j].0.left by {
            assert(r[i] == s[i + 1] && r[j] == s[j + 1]);
        }
        lemma_estimate_within_span(r, t - s[0].1.count);
        assert(r[0] == s[1]);
        assert(s[0].0.right < s[1].0.left);
        assert(r.last() == s.last());
    }
}

/// `x` appended to ordered bins, coalesced with the last bin where the two
/// overlap.
pub open spec fn push_coalesced(s: Seq<(BinAddress, BinData)>, x: (BinAddress, BinData)) -> Seq<(BinAddress, BinData)> {
    if s.len() > 0 && x.0.left <= s.last().0.right {
        s.update(s.len() - 1, (s.last().0.union(x.0), data_union(s.last().1, x.1)))
    } else {
        s.push(x)
    }
}

/// The bins of `a` and `b` taken in order of their left bounds (those of `a`
/// first where two are equal), each appended with coalescing.
pub open spec fn merge_coalesced(a: Seq<(BinAddress, BinData)>, b: Seq<(BinAddress, BinData)>) -> Seq<(BinAddress, BinData)>
    decreases a.len() + b.len(),
{
    if a.len() == 0 && b.len() == 0 {
        Seq::empty()
    } else if b.len() == 0 || (a.len() > 0 && a.last().0.left > b.last().0.left) {
        push_coalesced(merge_coalesced(a.drop_last(), b), a.last())
    } else {
        push_coalesced(merge_coalesced(a, b.drop_last()), b.last())
    }
}

} // verus!
