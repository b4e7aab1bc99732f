//! A flat, ordered form of a histogram's bins, for moving a histogram between
//! workers. It carries no candidate index; one is rebuilt on the way back.
use vstd::prelude::*;
use crate::bin::{BinAddress, BinData};
use crate::bin_seq::{bins_wf, count_total, lemma_totals_push, lemma_prefix_total};
use crate::histogram::{Histogram, lemma_bins_disjoint_ordered, lemma_within_budget};

verus! {

/// A flat form that describes a histogram: a budget of at least one, no more
/// bins than that, bins ordered and disjoint, and a total weight that fits.
pub open spec fn form_wf(n_bins: int, f: Seq<(i64, i64, BinData)>) -> bool {
    &&& n_bins >= 1
    &&& f.len() <= n_bins
    &&& bins_wf(unflatten(f))
    &&& count_total(unflatten(f)) <= u64::MAX
}

/// Each bin as `(left, right, data)`.
pub open spec fn flatten(s: Seq<(BinAddress, BinData)>) -> Seq<(i64, i64, BinData)> {
    Seq::new(s.len(), |k: int| (s[k].0.left, s[k].0.right, s[k].1))
}

/// Each `(left, right, data)` as a bin.
pub open spec fn unflatten(f: Seq<(i64, i64, BinData)>) -> Seq<(BinAddress, BinData)> {
    Seq::new(f.len(), |k: int| (BinAddress { left: f[k].0, right: f[k].1 }, f[k].2))
}

/// The transport form of a histogram: its budget and its bins in order.
#[derive(Clone, Debug)]
pub struct SerializableHistogram {
    pub n_bins: usize,
    pub bins: Vec<(i64, i64, BinData)>,
}

impl SerializableHistogram {
    /// The form describes a histogram: a budget of at least one, no more bins
    /// than that, bins ordered and disjoint, and a total weight that fits.
    pub open spec fn wf(&self) -> bool {
        form_wf(self.n_bins as int, self.bins@)
    }

    /// Whether the form describes a histogram.
    pub fn is_valid(&self) -> (r: bool)
        ensures
            r == self.wf(),
    {
        if self.n_bins == 0 || self.bins.len() > self.n_bins {
            return false;
        }
        let ghost all = unflatten(self.bins@);
        let mut total: u64 = 0;
        let mut i: usize = 0;
        while i < self.bins.len()
            invariant
                all == unflatten(self.bins@),
                i <= self.bins@.len(),
                bins_wf(unflatten(self.bins@.take(i as int))),
                total == count_total(unflatten(self.bins@.take(i as int))),
            decreases self.bins@.len() - i,
        {
            let (left, right, data) = self.bins[i];
            let ghost cur = unflatten(self.bins@.take(i as int));
            let ghost next = unflatten(self.bins@.take(i + 1));
            proof {
                assert(next =~= cur.push(all[i as int]));
                assert(all.take(i + 1) =~= next);
            }
            let bound: i128 = data.count as i128 * 0x8000_0000_0000_0000i128;
            if left > right || data.count == 0 || data.sum < -bound || data.sum > bound {
                proof {
                    assert(!all[i as int].0.wf() || !all[i as int].1.wf());
                }
                return false;
            }
            if i > 0 && self.bins[i - 1].1 >= left {
                proof {
                    assert(!(all[i - 1].0.right < all[i as int].0.left));
                }
                return false;
            }
            proof {
                lemma_totals_push(cur, all[i as int]);
                lemma_prefix_total(all, i + 1);
            }
            if total > u64::MAX - data.count {
                return false;
            }
            total = total + data.count;
            proof {
                assert forall|a: int, b: int| 0 <= a < b < next.len() implies #[trigger] next[a].0.right < #[trigger] next[b].0.left by {
                    if b < i {
                        assert(cur[a] == next[a] && cur[b] == next[b]);
                    } else if a < i - 1 {
                        assert(cur[a] == next[a] && cur[i - 1] == next[i - 1]);
                        assert(cur[a].0.right < cur[i - 1].0.left);
                        assert(cur[i - 1].0.wf());
                    }
                }
                assert forall|a: int| 0 <= a < next.len() implies (#[trigger] next[a]).0.wf() && next[a].1.wf() by {
                    if a < i {
                        assert(cur[a] == next[a]);
                    }
                }
            }
            i = i + 1;
        }
        proof {
            assert(self.bins@.take(i as int) =~= self.bins@);
        }
        true
    }

    /// The flat form of a histogram.
    pub fn from(hist: Histogram) -> (r: SerializableHistogram)
        requires
            hist.wf(),
        ensures
            r.n_bins == hist.spec_n_bins(),
            r.bins@ == flatten(hist.spec_bins()),
            r.wf(),
    {
        proof {
            lemma_within_budget(hist);
            lemma_bins_disjoint_ordered(hist);
        }
        let src = hist.bins();
        let mut bins: Vec<(i64, i64, BinData)> = Vec::new();
        let mut i: usize = 0;
        while i < src.len()
            invariant
                src@ == hist.spec_bins(),
                i <= src@.len(),
                bins@ == flatten(src@.take(i as int)),
            decreases src@.len() - i,
        {
            let (addr, data) = src[i];
            bins.push((addr.left, addr.right, data));
            i = i + 1;
            proof {
                assert(bins@ =~= flatten(src@.take(i as int)));
            }
        }
        proof {
            assert(src@.take(i as int) =~= src@);
            lemma_round_trip(hist);
        }
        SerializableHistogram { n_bins: hist.n_bins(), bins }
    }

    /// The histogram that the form describes, with a fresh candidate index.
    pub fn into(self) -> (r: Histogram)
        requires
            self.wf(),
        ensures
            r.wf(),
            r.spec_bins() == unflatten(self.bins@),
            r.spec_n_bins() == self.n_bins,
    {
        let mut bins: Vec<(BinAddress, BinData)> = Vec::new();
        let mut i: usize = 0;
        while i < self.bins.len()
            invariant
                i <= self.bins@.len(),
                bins@ == unflatten(self.bins@.take(i as int)),
            decreases self.bins@.len() - i,
        {
            let (left, right, data) = self.bins[i];
            bins.push((BinAddress::new(left, right), data));
            i = i + 1;
            proof {
                assert(bins@ =~= unflatten(self.bins@.take(i as int)));
            }
        }
        proof {
            assert(self.bins@.take(i as int) =~= self.bins@);
        }
        Histogram::from_bins(self.n_bins, bins)
    }
}

/// The flat form of a histogram describes a histogram, and reading it back
/// gives the same budget and the same bins, in the same order.
pub proof fn lemma_round_trip(h: Histogram)
    requires
        h.wf(),
    ensures
        form_wf(h.spec_n_bins() as int, flatten(h.spec_bins())),
        unflatten(flatten(h.spec_bins())) == h.spec_bins(),
{
    lemma_within_budget(h);
    lemma_bins_disjoint_ordered(h);
    assert(unflatten(flatten(h.spec_bins())) =~= h.spec_bins());
}

} // verus!
