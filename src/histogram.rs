//! The bounded histogram: insertion, compression to the bin budget, merging,
//! and the median estimate.
use vstd::prelude::*;
use crate::bin::{BinAddress, BinData};
use crate::bin_seq::{
    data_union, bins_wf, count_total, sum_total, lo, hi, interp, estimate_at, joint_lo, joint_hi, merged_at, coarsens_in, coarsens, split_point, is_split, insert_point, lemma_estimate_within_span, push_coalesced, merge_coalesced, lemma_totals_push, lemma_totals_take,
    lemma_totals_update, lemma_totals_insert, lemma_totals_remove, lemma_count_total_bounds, lemma_prefix_total,
};
use crate::candidates::{CandidateIndex, BinDistance, adjacent_entry};
use vstd::arithmetic::div_mod::{lemma_div_is_ordered, lemma_div_by_multiple};

verus! {

/// The number of bins whose interval ends below `y`; the bins from there on
/// end at or above `y`.
fn locate(bins: &Vec<(BinAddress, BinData)>, y: i64) -> (r: usize)
    requires
        bins_wf(bins@),
    ensures
        r <= bins@.len(),
        forall|j: int| 0 <= j < r ==> #[trigger] bins@[j].0.right < y,
        forall|j: int| r <= j < bins@.len() ==> #[trigger] bins@[j].0.right >= y,
{
    let mut lo: usize = 0;
    let mut hi: usize = bins.len();
    while lo < hi
        invariant
            0 <= lo <= hi <= bins@.len(),
            bins_wf(bins@),
            forall|j: int| 0 <= j < lo ==> #[trigger] bins@[j].0.right < y,
            forall|j: int| hi <= j < bins@.len() ==> #[trigger] bins@[j].0.right >= y,
        decreases hi - lo,
    {
        let mid = lo + (hi - lo) / 2;
        if bins[mid].0.right < y {
            proof {
                assert forall|j: int| 0 <= j < mid + 1 implies #[trigger] bins@[j].0.right < y by {
                    if j < mid {
                        assert(bins@[j].0.right < bins@[mid as int].0.left);
                        assert(bins@[mid as int].0.wf());
                    }
                }
            }
            lo = mid + 1;
        } else {
            proof {
                assert forall|j: int| mid <= j < bins@.len() implies #[trigger] bins@[j].0.right >= y by {
                    if j > mid {
                        assert(bins@[mid as int].0.right < bins@[j].0.left);
                        assert(bins@[j].0.wf());
                    }
                }
            }
            hi = mid;
        }
    }
    lo
}

/// The position of the bin keyed by `a`, if there is one.
fn find_addr(bins: &Vec<(BinAddress, BinData)>, a: &BinAddress) -> (r: Option<usize>)
    requires
        bins_wf(bins@),
    ensures
        r matches Some(p) ==> p < bins@.len() && bins@[p as int].0 == *a,
        r is None ==> forall|i: int| 0 <= i < bins@.len() ==> #[trigger] bins@[i].0 != *a,
{
    let idx = locate(bins, a.left);
    if idx < bins.len() && bins[idx].0 == *a {
        Some(idx)
    } else {
        proof {
            assert forall|i: int| 0 <= i < bins@.len() implies #[trigger] bins@[i].0 != *a by {
                if bins@[i].0 == *a {
                    assert(bins@[i].0.wf());
                    if i > idx {
                        assert(bins@[idx as int].0.right < bins@[i].0.left);
                    }
                }
            }
        }
        None
    }
}

/// Appends `x` to ordered bins, coalescing it with the last bin where the two
/// overlap.
fn push_coalesce(out: &mut Vec<(BinAddress, BinData)>, x: (BinAddress, BinData))
    requires
        bins_wf(old(out)@),
        x.0.wf(),
        x.1.wf(),
        old(out)@.len() > 0 ==> old(out)@.last().0.left <= x.0.left,
        count_total(old(out)@) + x.1.count <= u64::MAX,
    ensures
        bins_wf(final(out)@),
        final(out)@.len() > 0,
        count_total(final(out)@) == count_total(old(out)@) + x.1.count,
        sum_total(final(out)@) == sum_total(old(out)@) + x.1.sum,
        final(out)@.last().0.left <= x.0.left,
        old(out)@.len() == 0 ==> lo(final(out)@) == x.0.left,
        old(out)@.len() > 0 ==> lo(final(out)@) == lo(old(out)@),
        old(out)@.len() == 0 ==> hi(final(out)@) == x.0.right,
        old(out)@.len() > 0 ==> hi(final(out)@) == (if x.0.right >= hi(old(out)@) { x.0.right as int } else { hi(old(out)@) }),
        final(out)@ == push_coalesced(old(out)@, x),
{
    let ghost s0 = out@;
    let n = out.len();
    if n > 0 && x.0.left <= out[n - 1].0.right {
        let (mut addr, mut data) = out[n - 1];
        proof {
            assert(s0[n - 1].0.wf() && s0[n - 1].1.wf());
            lemma_count_total_bounds(s0);
        }
        addr.merge(&x.0);
        data.merge(&x.1);
        out.set(n - 1, (addr, data));
        proof {
            assert(data == data_union(s0.last().1, x.1));
            assert(out@ == push_coalesced(s0, x));
            lemma_totals_update(s0, n - 1, (addr, data));
            let s = out@;
            assert forall|i: int| 0 <= i < s.len() implies (#[trigger] s[i]).0.wf() && s[i].1.wf() by {
                if i != n - 1 {
                    assert(s[i] == s0[i]);
                }
            }
            assert forall|i: int, j: int| 0 <= i < j < s.len() implies #[trigger] s[i].0.right < #[trigger] s[j].0.left by {
                assert(s0[i].0.right < s0[j].0.left);
            }
            if n > 1 {
                assert(s[0] == s0[0]);
            }
        }
    } else {
        out.push(x);
        proof {
            lemma_totals_push(s0, x);
            let s = out@;
            assert forall|i: int| 0 <= i < s.len() implies (#[trigger] s[i]).0.wf() && s[i].1.wf() by {
                if i < n {
                    assert(s[i] == s0[i]);
                }
            }
            assert forall|i: int, j: int| 0 <= i < j < s.len() implies #[trigger] s[i].0.right < #[trigger] s[j].0.left by {
                if j < n {
                    assert(s0[i].0.right < s0[j].0.left);
                } else if i < n - 1 {
                    assert(s0[i].0.right < s0[n - 1].0.left);
                    assert(s0[n - 1].0.wf());
                }
            }
            if n > 0 {
                assert(s[0] == s0[0]);
            }
        }
    }
}

/// Two ordered sequences of bins combined into one, in order, with
/// overlapping bins coalesced.
fn coalesce_merge(a: &Vec<(BinAddress, BinData)>, b: &Vec<(BinAddress, BinData)>) -> (r: Vec<(BinAddress, BinData)>)
    requires
        bins_wf(a@),
        bins_wf(b@),
        count_total(a@) + count_total(b@) <= u64::MAX,
    ensures
        bins_wf(r@),
        count_total(r@) == count_total(a@) + count_total(b@),
        sum_total(r@) == sum_total(a@) + sum_total(b@),
        (r@.len() > 0) == (a@.len() > 0 || b@.len() > 0),
        r@.len() > 0 ==> lo(r@) == joint_lo(a@, b@) && hi(r@) == joint_hi(a@, b@),
        r@ == merge_coalesced(a@, b@),
{
    let mut out: Vec<(BinAddress, BinData)> = Vec::new();
    let mut i: usize = 0;
    let mut j: usize = 0;
    proof {
        assert(out@ =~= merge_coalesced(a@.take(0), b@.take(0)));
    }
    while i < a.len() || j < b.len()
        invariant
            i <= a@.len(),
            j <= b@.len(),
            bins_wf(a@),
            bins_wf(b@),
            bins_wf(out@),
            count_total(a@) + count_total(b@) <= u64::MAX,
            count_total(out@) == count_total(a@.take(i as int)) + count_total(b@.take(j as int)),
            sum_total(out@) == sum_total(a@.take(i as int)) + sum_total(b@.take(j as int)),
            (out@.len() > 0) == (i > 0 || j > 0),
            out@.len() > 0 && i < a@.len() ==> out@.last().0.left <= a@[i as int].0.left,
            out@.len() > 0 && j < b@.len() ==> out@.last().0.left <= b@[j as int].0.left,
            out@.len() > 0 ==> lo(out@) == joint_lo(a@, b@),
            out@.len() > 0 ==> hi(out@) == joint_hi(a@.take(i as int), b@.take(j as int)),
            out@ == merge_coalesced(a@.take(i as int), b@.take(j as int)),
            j > 0 && i < a@.len() ==> b@[j - 1].0.left < a@[i as int].0.left,
            i > 0 && j < b@.len() ==> a@[i - 1].0.left <= b@[j as int].0.left,
        decreases a@.len() + b@.len() - i - j,
    {
        let ghost o0 = out@;
        if j >= b.len() || (i < a.len() && a[i].0.left <= b[j].0.left) {
            proof {
                lemma_totals_take(a@, i as int);
                lemma_prefix_total(a@, i + 1);
                lemma_prefix_total(b@, j as int);
                assert(a@[i as int].0.wf() && a@[i as int].1.wf());
                assert(a@.take(i + 1).last() == a@[i as int]);
                if i > 0 {
                    assert(a@.take(i as int).last() == a@[i - 1]);
                    assert(a@[i - 1].0.right < a@[i as int].0.left);
                }
            }
            proof {
                assert(a@.take(i + 1).drop_last() =~= a@.take(i as int));
                if j > 0 {
                    assert(b@.take(j as int).last() == b@[j - 1]);
                }
            }
            push_coalesce(&mut out, a[i]);
            proof {
                if i + 1 < a@.len() {
                    assert(a@[i as int].0.right < a@[i + 1].0.left);
                }
            }
            i = i + 1;
        } else {
            proof {
                lemma_totals_take(b@, j as int);
                lemma_prefix_total(b@, j + 1);
                lemma_prefix_total(a@, i as int);
                assert(b@[j as int].0.wf() && b@[j as int].1.wf());
                assert(b@.take(j + 1).last() == b@[j as int]);
                if j > 0 {
                    assert(b@.take(j as int).last() == b@[j - 1]);
                    assert(b@[j - 1].0.right < b@[j as int].0.left);
                }
            }
            proof {
                assert(b@.take(j + 1).drop_last() =~= b@.take(j as int));
                if i > 0 {
                    assert(a@.take(i as int).last() == a@[i - 1]);
                }
            }
            push_coalesce(&mut out, b[j]);
            proof {
                if j + 1 < b@.len() {
                    assert(b@[j as int].0.right < b@[j + 1].0.left);
                }
            }
            j = j + 1;
        }
    }
    proof {
        assert(a@.take(i as int) =~= a@);
        assert(b@.take(j as int) =~= b@);
    }
    out
}

/// A histogram of at most `n_bins` weighted bins.
#[derive(Clone, Debug)]
pub struct Histogram {
    bins: Vec<(BinAddress, BinData)>,
    distances: CandidateIndex,
    n_bins: usize,
}

impl Histogram {
    /// The bins, in ascending order.
    pub closed spec fn spec_bins(&self) -> Seq<(BinAddress, BinData)> {
        self.bins@
    }

    /// The bin budget.
    pub closed spec fn spec_n_bins(&self) -> nat {
        self.n_bins as nat
    }

    /// The bins are ordered and disjoint, within the budget, and their total
    /// weight fits the weight type.
    pub closed spec fn wf(&self) -> bool {
        &&& bins_wf(self.bins@)
        &&& self.n_bins >= 1
        &&& self.bins@.len() <= self.n_bins
        &&& count_total(self.bins@) <= u64::MAX
    }

    /// The total weight held.
    pub open spec fn spec_count(&self) -> int {
        count_total(self.spec_bins())
    }

    /// An empty histogram with the given bin budget.
    pub fn new(n_bins: usize) -> (r: Histogram)
        requires
            n_bins >= 1,
        ensures
            r.wf(),
            r.spec_bins() == Seq::<(BinAddress, BinData)>::empty(),
            r.spec_n_bins() == n_bins,
    {
        Histogram { bins: Vec::new(), distances: CandidateIndex::new(), n_bins }
    }

    /// Coalesces the closest pairs of neighbouring bins until the budget holds.
    fn shrink_to_fit(&mut self)
        requires
            bins_wf(old(self).bins@),
            old(self).n_bins >= 1,
            count_total(old(self).bins@) <= u64::MAX,
        ensures
            final(self).wf(),
            final(self).n_bins == old(self).n_bins,
            count_total(final(self).bins@) == count_total(old(self).bins@),
            sum_total(final(self).bins@) == sum_total(old(self).bins@),
            old(self).bins@.len() > 0 ==> final(self).bins@.len() > 0
                && lo(final(self).bins@) == lo(old(self).bins@)
                && hi(final(self).bins@) == hi(old(self).bins@),
            old(self).bins@.len() == 0 ==> final(self).bins@.len() == 0,
            old(self).bins@.len() <= old(self).n_bins ==> final(self).bins@ == old(self).bins@,
            coarsens(old(self).bins@, final(self).bins@),
    {
        let ghost b0 = self.bins@;
        let ghost mut steps: nat = 0;
        while self.bins.len() > self.n_bins
            invariant
                bins_wf(self.bins@),
                self.n_bins == old(self).n_bins,
                self.n_bins >= 1,
                count_total(self.bins@) == count_total(b0),
                sum_total(self.bins@) == sum_total(b0),
                count_total(b0) <= u64::MAX,
                b0.len() > 0 ==> self.bins@.len() > 0 && lo(self.bins@) == lo(b0) && hi(self.bins@) == hi(b0),
                b0.len() == 0 ==> self.bins@.len() == 0,
                b0.len() <= self.n_bins ==> self.bins@ == b0,
                coarsens_in(b0, self.bins@, steps),
            decreases self.bins@.len(), self.distances@.len(),
        {
            // Every recorded candidate may have gone stale; a fresh index
            // holds one entry per neighbouring pair, so its first pop merges.
            let rebuilt = self.distances.len() == 0;
            if rebuilt {
                self.distances.rebuild(&self.bins);
            }
            let ghost entries = self.distances@;
            let popped = self.distances.pop_closest();
            if let Some(cand) = popped {
                let ghost k = choose|k: int|
                    0 <= k < entries.len()
                    && entries[k] == cand
                    && self.distances@ == entries.remove(k)
                    && (forall|j: int| 0 <= j < entries.len() ==> cand.distance <= #[trigger] entries[j].distance)
                    && (forall|j: int| 0 <= j < k ==> cand.distance < #[trigger] entries[j].distance);
                let pos = find_addr(&self.bins, &cand.left);
                let mut p: usize = 0;
                let mut valid = false;
                if let Some(q) = pos {
                    if q + 1 < self.bins.len() && self.bins[q + 1].0 == cand.right {
                        p = q;
                        valid = true;
                    }
                }
                proof {
                    if rebuilt {
                        assert(entries[k] == adjacent_entry(self.bins@, k));
                        assert(self.bins@[k].0 == cand.left);
                        assert(pos == Some(k as usize)) by {
                            if pos is None {
                                assert(self.bins@[k].0 != cand.left);
                            } else {
                                let q = pos->Some_0;
                                if q < k {
                                    assert(self.bins@[q as int].0.right < self.bins@[k].0.left);
                                } else if q > k {
                                    assert(self.bins@[k].0.right < self.bins@[q as int].0.left);
                                }
                                assert(self.bins@[k].0.wf());
                                assert(self.bins@[q as int].0.wf());
                            }
                        }
                        assert(valid);
                    }
                }
                if valid {
                    let ghost mid = self.bins@;
                    self.merge_neighbours(p);
                    proof {
                        assert(coarsens_in(b0, merged_at(mid, p as int), steps + 1));
                        steps = steps + 1;
                    }
                    if p + 1 < self.bins.len() {
                        let d = BinDistance::new(&self.bins[p].0, &self.bins[p + 1].0);
                        self.distances.push(d);
                    }
                    if self.distances.len() as u128 > self.n_bins as u128 * 10 {
                        self.distances.rebuild(&self.bins);
                    }
                }
            } else {
                proof {
                    assert(self.bins@.len() >= 2);
                    assert(false);
                }
            }
        }
        proof {
            assert(coarsens_in(b0, self.bins@, steps));
        }
    }

    /// Replaces the bins at `p` and `p + 1` by one bin that covers both and
    /// holds both payloads.
    fn merge_neighbours(&mut self, p: usize)
        requires
            bins_wf(old(self).bins@),
            p + 1 < old(self).bins@.len(),
            count_total(old(self).bins@) <= u64::MAX,
        ensures
            bins_wf(final(self).bins@),
            final(self).bins@.len() == old(self).bins@.len() - 1,
            final(self).n_bins == old(self).n_bins,
            final(self).distances == old(self).distances,
            count_total(final(self).bins@) == count_total(old(self).bins@),
            sum_total(final(self).bins@) == sum_total(old(self).bins@),
            lo(final(self).bins@) == lo(old(self).bins@),
            hi(final(self).bins@) == hi(old(self).bins@),
            final(self).bins@ == merged_at(old(self).bins@, p as int),
    {
        let ghost s0 = self.bins@;
        let n = self.bins.len();
        assert(p + 1 < n);
        let (mut addr, mut data) = self.bins[p];
        let (addr_r, data_r) = self.bins[p + 1];
        proof {
            assert(s0[p as int].0.wf() && s0[p as int].1.wf());
            assert(s0[p + 1].0.wf() && s0[p + 1].1.wf());
            assert(s0[p as int].0.right < s0[p + 1].0.left);
            lemma_count_total_bounds(s0);
            lemma_totals_remove(s0, p + 1);
            lemma_count_total_bounds(s0.remove(p + 1));
            assert(s0.remove(p + 1)[p as int] == s0[p as int]);
        }
        addr.merge(&addr_r);
        data.merge(&data_r);
        self.bins.set(p, (addr, data));
        self.bins.remove(p + 1);
        proof {
            let s1 = s0.update(p as int, (addr, data));
            assert(self.bins@ == s1.remove(p + 1));
            assert(addr == (BinAddress { left: s0[p as int].0.left, right: s0[p + 1].0.right }));
            assert(data == data_union(s0[p as int].1, s0[p + 1].1));
            assert(self.bins@ == merged_at(s0, p as int));
            lemma_totals_update(s0, p as int, (addr, data));
            lemma_totals_remove(s1, p + 1);
            let s = self.bins@;
            assert forall|i: int| 0 <= i < s.len() implies #[trigger] s[i].0.wf() && s[i].1.wf() by {
                if i < p {
                    assert(s[i] == s0[i]);
                } else if i > p {
                    assert(s[i] == s0[i + 1]);
                }
            }
            assert forall|i: int, j: int| 0 <= i < j < s.len() implies #[trigger] s[i].0.right < #[trigger] s[j].0.left by {
                let i0 = if i <= p { i } else { i + 1 };
                let j0 = if j < p { j } else { j + 1 };
                if i == p {
                    assert(s0[p + 1].0.right < s0[j0].0.left);
                } else if j == p {
                    assert(s0[i0].0.right < s0[p as int].0.left);
                } else {
                    assert(s0[i0].0.right < s0[j0].0.left);
                }
            }
            if p > 0 {
                assert(s[0] == s0[0]);
                assert(s0[0].0.right < s0[p as int].0.left);
            }
            if p + 2 < s0.len() {
                assert(s.last() == s0.last());
                assert(s0[p + 1].0.right < s0.last().0.left);
                assert(s0.last().0.wf());
            }
        }
    }

    /// Adds a point of value `y` and weight `count`: into the bin that covers
    /// `y` if there is one, else into a new bin `[y, y]`, then coalesces bins
    /// until the budget holds again.
    pub fn insert(&mut self, y: i64, count: u64)
        requires
            old(self).wf(),
            count >= 1,
            old(self).spec_count() + count <= u64::MAX,
        ensures
            final(self).wf(),
            final(self).spec_n_bins() == old(self).spec_n_bins(),
            final(self).spec_count() == old(self).spec_count() + count,
            sum_total(final(self).spec_bins()) == sum_total(old(self).spec_bins()) + y,
            final(self).spec_bins().len() > 0,
            old(self).spec_bins().len() == 0 ==> lo(final(self).spec_bins()) == y && hi(final(self).spec_bins()) == y,
            old(self).spec_bins().len() > 0 ==> lo(final(self).spec_bins()) == (if y < lo(old(self).spec_bins()) { y as int } else { lo(old(self).spec_bins()) }),
            old(self).spec_bins().len() > 0 ==> hi(final(self).spec_bins()) == (if y > hi(old(self).spec_bins()) { y as int } else { hi(old(self).spec_bins()) }),
            coarsens(insert_point(old(self).spec_bins(), y as int, count as int), final(self).spec_bins()),
            insert_point(old(self).spec_bins(), y as int, count as int).len() <= old(self).spec_n_bins()
                ==> final(self).spec_bins() == insert_point(old(self).spec_bins(), y as int, count as int),
    {
        let ghost s0 = self.bins@;
        let idx = locate(&self.bins, y);
        proof {
            assert(is_split(s0, y as int, idx as int));
            let k = split_point(s0, y as int);
            assert(is_split(s0, y as int, k));
            if k < idx {
                assert(s0[k].0.right >= y);
            } else if k > idx {
                assert(s0[idx as int].0.right < y);
            }
            assert(k == idx);
        }
        if idx < self.bins.len() && self.bins[idx].0.left <= y {
            let (addr, data) = self.bins[idx];
            proof {
                assert(s0[idx as int].1.wf());
                lemma_count_total_bounds(s0);
                assert((data.count + count) * 0x8000_0000_0000_0000int <= 0x7fff_ffff_ffff_ffff_ffff_ffff_ffff_ffffint) by (nonlinear_arith)
                    requires data.count + count <= u64::MAX;
            }
            let folded = BinData { count: data.count + count, sum: data.sum + y as i128 };
            self.bins.set(idx, (addr, folded));
            proof {
                assert(self.bins@ == insert_point(s0, y as int, count as int));
                lemma_totals_update(s0, idx as int, (addr, folded));
                let s = self.bins@;
                assert forall|i: int| 0 <= i < s.len() implies (#[trigger] s[i]).0.wf() && s[i].1.wf() by {
                    if i != idx {
                        assert(s[i] == s0[i]);
                    }
                }
                assert forall|i: int, j: int| 0 <= i < j < s.len() implies #[trigger] s[i].0.right < #[trigger] s[j].0.left by {
                    assert(s0[i].0.right < s0[j].0.left);
                }
                assert(s0[0].0.left <= s0[idx as int].0.left) by {
                    if idx > 0 {
                        assert(s0[0].0.right < s0[idx as int].0.left);
                        assert(s0[0].0.wf());
                    }
                }
                assert(s0.last().0.right >= s0[idx as int].0.right) by {
                    if idx < s0.len() - 1 {
                        assert(s0[idx as int].0.right < s0.last().0.left);
                        assert(s0.last().0.wf());
                    }
                }
            }
        } else {
            let new_addr = BinAddress::init(y);
            if idx > 0 {
                let d = BinDistance::new(&self.bins[idx - 1].0, &new_addr);
                self.distances.push(d);
            }
            if idx < self.bins.len() {
                let d = BinDistance::new(&new_addr, &self.bins[idx].0);
                self.distances.push(d);
            }
            let new_bin = (new_addr, BinData { count, sum: y as i128 });
            proof {
                assert(new_bin.1.wf()) by (nonlinear_arith)
                    requires new_bin.1.count >= 1, new_bin.1.sum == y, -0x8000_0000_0000_0000int <= y < 0x8000_0000_0000_0000int;
            }
            self.bins.insert(idx, new_bin);
            proof {
                assert(self.bins@ == insert_point(s0, y as int, count as int));
                lemma_totals_insert(s0, idx as int, new_bin);
                let s = self.bins@;
                assert forall|i: int| 0 <= i < s.len() implies (#[trigger] s[i]).0.wf() && s[i].1.wf() by {
                    if i < idx {
                        assert(s[i] == s0[i]);
                    } else if i > idx {
                        assert(s[i] == s0[i - 1]);
                    }
                }
                assert forall|i: int, j: int| 0 <= i < j < s.len() implies #[trigger] s[i].0.right < #[trigger] s[j].0.left by {
                    let i0 = if i < idx { i } else { i - 1 };
                    let j0 = if j < idx { j } else { j - 1 };
                    if i == idx {
                        assert(s0[j0].0.right >= y);
                        assert(s0[j0].0.left > y);
                    } else if j == idx {
                        assert(s0[i0].0.right < y);
                    } else {
                        assert(s0[i0].0.right < s0[j0].0.left);
                    }
                }
                if s0.len() > 0 {
                    if idx > 0 {
                        assert(s[0] == s0[0]);
                        assert(s0[0].0.right < y);
                    } else {
                        assert(s0[0].0.left > y);
                    }
                    if idx < s0.len() {
                        assert(s.last() == s0.last());
                        assert(s0.last().0.left > y);
                        assert(s0.last().0.wf());
                    } else {
                        assert(s0.last().0.right < y);
                    }
                }
            }
        }
        self.shrink_to_fit();
    }

    /// The median estimate: the rank of half the total weight, located among
    /// the bins and interpolated inside its bin.
    pub open spec fn spec_median(&self) -> Option<int> {
        estimate_at(self.spec_bins(), self.spec_count() / 2)
    }

    /// The total weight of all bins.
    pub fn count(&self) -> (r: u64)
        requires
            self.wf(),
        ensures
            r == self.spec_count(),
    {
        let mut total: u64 = 0;
        let mut i: usize = 0;
        while i < self.bins.len()
            invariant
                self.wf(),
                i <= self.bins@.len(),
                total == count_total(self.bins@.take(i as int)),
            decreases self.bins@.len() - i,
        {
            proof {
                lemma_totals_take(self.bins@, i as int);
                lemma_prefix_total(self.bins@, i + 1);
            }
            total = total + self.bins[i].1.count;
            i = i + 1;
        }
        proof {
            assert(self.bins@.take(i as int) =~= self.bins@);
        }
        total
    }

    /// The median estimate; `None` when the histogram holds no points.
    pub fn median(&self) -> (r: Option<i64>)
        requires
            self.wf(),
        ensures
            r is None <==> self.spec_bins().len() == 0,
            r matches Some(m) ==> self.spec_median() == Some(m as int),
            r matches Some(m) ==> lo(self.spec_bins()) <= m <= hi(self.spec_bins()),
    {
        let ghost s = self.bins@;
        let total = self.count();
        let target = total / 2;
        let mut rem: u64 = target;
        let mut i: usize = 0;
        proof {
            assert(s.subrange(0, s.len() as int) =~= s);
        }
        while i < self.bins.len()
            invariant
                self.wf(),
                s == self.bins@,
                total == count_total(s),
                target == total / 2,
                i <= s.len(),
                rem == target - count_total(s.take(i as int)),
                estimate_at(s, target as int) == estimate_at(s.subrange(i as int, s.len() as int), rem as int),
            decreases s.len() - i,
        {
            let (addr, data) = self.bins[i];
            proof {
                assert(s.subrange(i as int, s.len() as int)[0] == s[i as int]);
                assert(s[i as int].0.wf() && s[i as int].1.wf());
            }
            if rem < data.count {
                let width: u128 = (addr.right as i128 - addr.left as i128) as u128;
                proof {
                    assert(width * rem <= width * data.count) by (nonlinear_arith)
                        requires rem < data.count, width >= 0;
                    assert(width * rem <= 0xffff_ffff_ffff_ffff_ffff_ffff_ffff_ffffint) by (nonlinear_arith)
                        requires width <= 0xffff_ffff_ffff_ffff, rem <= 0xffff_ffff_ffff_ffff;
                    lemma_div_is_ordered(width * rem, width * data.count, data.count as int);
                    lemma_div_by_multiple(width as int, data.count as int);
                    assert(width * rem / (data.count as int) >= 0) by (nonlinear_arith)
                        requires width * rem >= 0, data.count > 0;
                }
                let off: u128 = width * (rem as u128) / (data.count as u128);
                let m = (addr.left as i128 + off as i128) as i64;
                proof {
                    assert(m == interp(s[i as int], rem as int));
                    let sub = s.subrange(i as int, s.len() as int);
                    assert(estimate_at(sub, rem as int) == Some(interp(sub[0], rem as int)));
                    assert(sub[0] == s[i as int]);
                    assert(estimate_at(s, target as int) == Some(m as int));
                    assert(self.spec_count() / 2 == target as int);
                    assert(s[0].0.left <= addr.left) by {
                        if i > 0 {
                            assert(s[0].0.right < s[i as int].0.left);
                            assert(s[0].0.wf());
                        }
                    }
                    assert(s.last().0.right >= addr.right) by {
                        if i < s.len() - 1 {
                            assert(s[i as int].0.right < s.last().0.left);
                            assert(s.last().0.wf());
                        }
                    }
                }
                return Some(m);
            }
            proof {
                lemma_totals_take(s, i as int);
                assert(s.subrange(i as int, s.len() as int).drop_first() =~= s.subrange(i + 1, s.len() as int));
            }
            rem = rem - data.count;
            i = i + 1;
        }
        proof {
            assert(s.take(i as int) =~= s);
            lemma_count_total_bounds(s);
        }
        None
    }

    /// Folds the other histogram's bins into this one: bins that overlap are
    /// coalesced, the candidate index is rebuilt, and bins are coalesced until
    /// the budget holds.
    pub fn merge_borrowed(&mut self, other: &Histogram)
        requires
            old(self).wf(),
            other.wf(),
            old(self).spec_count() + other.spec_count() <= u64::MAX,
        ensures
            final(self).wf(),
            final(self).spec_n_bins() == old(self).spec_n_bins(),
            final(self).spec_count() == old(self).spec_count() + other.spec_count(),
            sum_total(final(self).spec_bins()) == sum_total(old(self).spec_bins()) + sum_total(other.spec_bins()),
            (final(self).spec_bins().len() > 0) == (old(self).spec_bins().len() > 0 || other.spec_bins().len() > 0),
            final(self).spec_bins().len() > 0 ==> lo(final(self).spec_bins()) == joint_lo(old(self).spec_bins(), other.spec_bins()),
            final(self).spec_bins().len() > 0 ==> hi(final(self).spec_bins()) == joint_hi(old(self).spec_bins(), other.spec_bins()),
            coarsens(merge_coalesced(old(self).spec_bins(), other.spec_bins()), final(self).spec_bins()),
            merge_coalesced(old(self).spec_bins(), other.spec_bins()).len() <= old(self).spec_n_bins()
                ==> final(self).spec_bins() == merge_coalesced(old(self).spec_bins(), other.spec_bins()),
    {
        let merged = coalesce_merge(&self.bins, &other.bins);
        self.bins = merged;
        self.distances.rebuild(&self.bins);
        self.shrink_to_fit();
    }

    /// Folds the other histogram into this one; see [`Histogram::merge_borrowed`].
    pub fn merge(&mut self, other: Histogram)
        requires
            old(self).wf(),
            other.wf(),
            old(self).spec_count() + other.spec_count() <= u64::MAX,
        ensures
            final(self).wf(),
            final(self).spec_n_bins() == old(self).spec_n_bins(),
            final(self).spec_count() == old(self).spec_count() + other.spec_count(),
            sum_total(final(self).spec_bins()) == sum_total(old(self).spec_bins()) + sum_total(other.spec_bins()),
            (final(self).spec_bins().len() > 0) == (old(self).spec_bins().len() > 0 || other.spec_bins().len() > 0),
            final(self).spec_bins().len() > 0 ==> lo(final(self).spec_bins()) == joint_lo(old(self).spec_bins(), other.spec_bins()),
            final(self).spec_bins().len() > 0 ==> hi(final(self).spec_bins()) == joint_hi(old(self).spec_bins(), other.spec_bins()),
            coarsens(merge_coalesced(old(self).spec_bins(), other.spec_bins()), final(self).spec_bins()),
            merge_coalesced(old(self).spec_bins(), other.spec_bins()).len() <= old(self).spec_n_bins()
                ==> final(self).spec_bins() == merge_coalesced(old(self).spec_bins(), other.spec_bins()),
    {
        self.merge_borrowed(&other);
    }

    /// An empty histogram with the same budget.
    pub fn empty_clone(&self) -> (r: Histogram)
        requires
            self.wf(),
        ensures
            r.wf(),
            r.spec_bins() == Seq::<(BinAddress, BinData)>::empty(),
            r.spec_n_bins() == self.spec_n_bins(),
    {
        Histogram::new(self.n_bins)
    }

    /// The bins, in ascending order.
    pub fn bins(&self) -> (r: &Vec<(BinAddress, BinData)>)
        ensures
            r@ == self.spec_bins(),
    {
        &self.bins
    }

    /// The bin budget.
    pub fn n_bins(&self) -> (r: usize)
        ensures
            r == self.spec_n_bins(),
    {
        self.n_bins
    }

    /// A histogram holding exactly the given bins, with its candidate index
    /// built from them.
    pub fn from_bins(n_bins: usize, bins: Vec<(BinAddress, BinData)>) -> (r: Histogram)
        requires
            bins_wf(bins@),
            n_bins >= 1,
            bins@.len() <= n_bins,
            count_total(bins@) <= u64::MAX,
        ensures
            r.wf(),
            r.spec_bins() == bins@,
            r.spec_n_bins() == n_bins,
    {
        let mut distances = CandidateIndex::new();
        distances.rebuild(&bins);
        Histogram { bins, distances, n_bins }
    }
}

/// Every histogram that operations return keeps within its bin budget.
pub proof fn lemma_within_budget(h: Histogram)
    requires
        h.wf(),
    ensures
        h.spec_bins().len() <= h.spec_n_bins(),
        h.spec_n_bins() >= 1,
{
}

/// The bins of a histogram are proper non-empty intervals, pairwise disjoint,
/// and in ascending order of address; the total weight fits a `u64`.
pub proof fn lemma_bins_disjoint_ordered(h: Histogram)
    requires
        h.wf(),
    ensures
        bins_wf(h.spec_bins()),
        forall|i: int, j: int| 0 <= i < j < h.spec_bins().len() ==>
            (#[trigger] h.spec_bins()[i]).0.lt(#[trigger] h.spec_bins()[j].0),
        h.spec_count() <= u64::MAX,
{
    let s = h.spec_bins();
    assert forall|i: int, j: int| 0 <= i < j < s.len() implies (#[trigger] s[i]).0.lt(#[trigger] s[j].0) by {
        assert(s[i].0.right < s[j].0.left);
        assert(s[i].0.wf());
    }
}

/// The median estimate, where there is one, lies between the lowest and the
/// highest value that the histogram covers.
pub proof fn lemma_median_within_span(h: Histogram)
    requires
        h.wf(),
        h.spec_median() is Some,
    ensures
        lo(h.spec_bins()) <= h.spec_median()->Some_0 <= hi(h.spec_bins()),
{
    lemma_count_total_bounds(h.spec_bins());
    lemma_estimate_within_span(h.spec_bins(), h.spec_count() / 2);
}

} // verus!
