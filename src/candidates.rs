//! The candidate index: gaps between bins that were adjacent when recorded,
//! consulted to find the closest pair of bins to coalesce. Entries may go
//! stale; callers check them against the bins before trusting them.
use vstd::prelude::*;
use crate::bin::{BinAddress, BinData};

verus! {

/// The gap from the end of `left` to the start of `right`, or zero where they
/// touch or overlap.
pub open spec fn gap(left: BinAddress, right: BinAddress) -> int {
    if right.left > left.right {
        right.left - left.right
    } else {
        0
    }
}

/// A candidate pair of bins and the gap between them.
#[derive(Clone, Copy, Debug, PartialEq, Eq, Structural)]
pub struct BinDistance {
    pub left: BinAddress,
    pub right: BinAddress,
    pub distance: u64,
}

impl BinDistance {
    /// The candidate pair `(left, right)` with its gap.
    pub fn new(left: &BinAddress, right: &BinAddress) -> (r: BinDistance)
        ensures
            r.left == *left,
            r.right == *right,
            r.distance == gap(*left, *right),
    {
        let distance: u64 = if right.left > left.right {
            (right.left as i128 - left.right as i128) as u64
        } else {
            0
        };
        BinDistance { left: *left, right: *right, distance }
    }
}

/// The entry that records the pair of bins at `k` and `k + 1`.
pub open spec fn adjacent_entry(bins: Seq<(BinAddress, BinData)>, k: int) -> BinDistance {
    BinDistance {
        left: bins[k].0,
        right: bins[k + 1].0,
        distance: gap(bins[k].0, bins[k + 1].0) as u64,
    }
}

/// A priority structure of candidate pairs, in the order they were recorded.
#[derive(Clone, Debug)]
pub struct CandidateIndex {
    entries: Vec<BinDistance>,
}

impl View for CandidateIndex {
    type V = Seq<BinDistance>;

    closed spec fn view(&self) -> Seq<BinDistance> {
        self.entries@
    }
}

impl CandidateIndex {
    /// An index with no candidates.
    pub fn new() -> (r: CandidateIndex)
        ensures
            r@ == Seq::<BinDistance>::empty(),
    {
        CandidateIndex { entries: Vec::new() }
    }

    /// The number of entries, stale ones included.
    pub fn len(&self) -> (r: usize)
        ensures
            r == self@.len(),
    {
        self.entries.len()
    }

    /// Records a candidate.
    pub fn push(&mut self, d: BinDistance)
        ensures
            final(self)@ == old(self)@.push(d),
    {
        self.entries.push(d);
    }

    /// Removes and returns the candidate with the smallest gap; among equal
    /// gaps, the one recorded first.
    pub fn pop_closest(&mut self) -> (r: Option<BinDistance>)
        ensures
            r is None <==> old(self)@.len() == 0,
            r is None ==> final(self)@ == old(self)@,
            r matches Some(d) ==> exists|k: int|
                0 <= k < old(self)@.len()
                && old(self)@[k] == d
                && final(self)@ == old(self)@.remove(k)
                && (forall|j: int| 0 <= j < old(self)@.len() ==> d.distance <= #[trigger] old(self)@[j].distance)
                && (forall|j: int| 0 <= j < k ==> d.distance < #[trigger] old(self)@[j].distance),
    {
        if self.entries.len() == 0 {
            return None;
        }
        let mut best: usize = 0;
        let mut i: usize = 1;
        while i < self.entries.len()
            invariant
                1 <= i <= self.entries@.len(),
                best < i,
                forall|j: int| 0 <= j < i ==> self.entries@[best as int].distance <= #[trigger] self.entries@[j].distance,
                forall|j: int| 0 <= j < best ==> self.entries@[best as int].distance < #[trigger] self.entries@[j].distance,
            decreases self.entries@.len() - i,
        {
            if self.entries[i].distance < self.entries[best].distance {
                best = i;
            }
            i = i + 1;
        }
        let d = self.entries.remove(best);
        proof {
            assert(old(self)@[best as int] == d);
        }
        Some(d)
    }

    /// Drops every entry and records one per pair of neighbouring bins.
    pub fn rebuild(&mut self, bins: &Vec<(BinAddress, BinData)>)
        ensures
            final(self)@.len() == (if bins@.len() == 0 { 0 } else { bins@.len() - 1 }),
            forall|k: int| 0 <= k < final(self)@.len() ==> #[trigger] final(self)@[k] == adjacent_entry(bins@, k),
    {
        self.entries.clear();
        let n = bins.len();
        let mut k: usize = 0;
        while k + 1 < n
            invariant
                n == bins@.len(),
                self.entries@.len() == k,
                k <= bins@.len(),
                bins@.len() > 0 ==> k < bins@.len(),
                forall|m: int| 0 <= m < k ==> #[trigger] self.entries@[m] == adjacent_entry(bins@, m),
            decreases bins@.len() - k,
        {
            self.entries.push(BinDistance::new(&bins[k].0, &bins[k + 1].0));
            k = k + 1;
        }
    }
}

} // verus!
