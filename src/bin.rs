//! Bin keys (closed intervals of values) and bin payloads (weight and value sum).
use vstd::prelude::*;
use core::cmp::Ordering;

verus! {

/// A closed interval `[left, right]` of the value domain that keys one bin.
#[derive(Clone, Copy, Debug, PartialEq, Eq, Structural)]
pub struct BinAddress {
    pub left: i64,
    pub right: i64,
}

/// The aggregate of the points folded into one bin: their total weight and
/// the sum of their values.
#[derive(Clone, Copy, Debug, PartialEq, Eq, Structural)]
pub struct BinData {
    pub count: u64,
    pub sum: i128,
}

/// The largest magnitude that one inserted value can add to a bin's sum.
pub open spec fn value_bound() -> int {
    0x8000_0000_0000_0000
}

impl BinAddress {
    /// An interval is proper when its bounds are in order.
    pub open spec fn wf(self) -> bool {
        self.left <= self.right
    }

    /// Whether the value `y` lies in the interval.
    pub open spec fn covers(self, y: int) -> bool {
        self.left <= y <= self.right
    }

    /// The union of the two intervals' bounds.
    pub open spec fn union(self, other: BinAddress) -> BinAddress {
        BinAddress {
            left: if self.left <= other.left { self.left } else { other.left },
            right: if self.right >= other.right { self.right } else { other.right },
        }
    }

    /// Lexicographic order on `(left, right)`.
    pub open spec fn lt(self, other: BinAddress) -> bool {
        self.left < other.left || (self.left == other.left && self.right < other.right)
    }

    /// The degenerate interval `[y, y]`.
    pub fn init(y: i64) -> (r: BinAddress)
        ensures
            r == (BinAddress { left: y, right: y }),
    {
        BinAddress { left: y, right: y }
    }

    /// The interval `[left, right]`.
    pub fn new(left: i64, right: i64) -> (r: BinAddress)
        ensures
            r == (BinAddress { left, right }),
    {
        BinAddress { left, right }
    }

    /// Where `y` stands relative to the interval: `Less` below it, `Greater`
    /// above it, `Equal` inside it.
    pub fn contains(&self, y: i64) -> (r: Ordering)
        ensures
            r == Ordering::Less <==> y < self.left,
            r == Ordering::Greater <==> (self.left <= y && y > self.right),
            r == Ordering::Equal <==> self.covers(y as int),
    {
        if y < self.left {
            Ordering::Less
        } else if y > self.right {
            Ordering::Greater
        } else {
            Ordering::Equal
        }
    }

    /// Widens this interval to the union of the bounds of both.
    pub fn merge(&mut self, other: &BinAddress)
        ensures
            *final(self) == old(self).union(*other),
    {
        if other.left < self.left {
            self.left = other.left;
        }
        if other.right > self.right {
            self.right = other.right;
        }
    }
}

impl BinData {
    /// A payload is consistent when it holds at least one point and its sum is
    /// within what that many points can reach.
    pub open spec fn wf(self) -> bool {
        &&& self.count >= 1
        &&& -(self.count as int) * value_bound() <= self.sum
        &&& self.sum <= (self.count as int) * value_bound()
    }

    /// The payload of a single point of value `y`.
    pub fn init(y: i64) -> (r: BinData)
        ensures
            r == (BinData { count: 1, sum: y as i128 }),
            r.wf(),
    {
        BinData { count: 1, sum: y as i128 }
    }

    /// A payload of the given weight and sum.
    pub fn new(count: u64, sum: i128) -> (r: BinData)
        ensures
            r == (BinData { count, sum }),
    {
        BinData { count, sum }
    }

    /// Adds the other payload's weight and sum to this one.
    pub fn merge(&mut self, other: &BinData)
        requires
            old(self).wf(),
            other.wf(),
            old(self).count + other.count <= u64::MAX,
        ensures
            final(self).count == old(self).count + other.count,
            final(self).sum == old(self).sum + other.sum,
            final(self).wf(),
    {
        proof {
            assert((self.count + other.count) * value_bound() < 0x8000_0000_0000_0000_0000_0000_0000_0000)
                by (nonlinear_arith)
                requires self.count + other.count <= u64::MAX, value_bound() == 0x8000_0000_0000_0000;
        }
        self.sum = self.sum + other.sum;
        self.count = self.count + other.count;
    }
}

} // verus!
