//! Estimates inside one bin, assuming its points are spread evenly between
//! its bounds.
use vstd::prelude::*;
use crate::bin::{BinAddress, BinData};

verus! {

/// Integer division that rounds toward zero.
pub open spec fn trunc_div(a: int, d: int) -> int {
    if a >= 0 {
        a / d
    } else {
        -((-a) / d)
    }
}

/// The spacing term of the quadratic model, before division: the points of a
/// bin of weight `c` are taken to sit at `left + 2 i delta` for `i < c - 1`,
/// with the last one at `right`, and `delta` fitted so that they add up to the
/// bin's sum. This is `delta * (c - 1) * (c - 2)`.
pub open spec fn spacing_numerator(addr: BinAddress, data: BinData) -> int {
    data.sum - addr.right - (data.count - 1) * addr.left
}

/// The estimated sum of the first `r` points of the bin (by rank): the whole
/// sum at `r == count`, and `r * left + r * (r - 1) * delta` below it.
pub open spec fn partial_sum_spec(addr: BinAddress, data: BinData, r: int) -> int {
    if r == data.count {
        data.sum as int
    } else if r <= 1 {
        r * addr.left
    } else {
        r * addr.left + trunc_div(
            r * (r - 1) * spacing_numerator(addr, data),
            (data.count - 1) * (data.count - 2),
        )
    }
}

/// Whether every intermediate value of the estimate fits an `i128`.
pub open spec fn partial_sum_fits(addr: BinAddress, data: BinData, r: int) -> bool {
    let m = i128::MAX as int;
    let a = data.sum - addr.right;
    let b = (data.count - 1) * addr.left;
    let p = r * (r - 1) * spacing_numerator(addr, data);
    &&& -m <= a <= m
    &&& -m <= b <= m
    &&& -m <= spacing_numerator(addr, data) <= m
    &&& -m <= (r - 1) * spacing_numerator(addr, data) <= m
    &&& -m <= p <= m
    &&& -m <= partial_sum_spec(addr, data, r) <= m
}

/// Estimates the sum of the first `r` points of the bin, by rank.
pub fn partial_sum(addr: &BinAddress, data: &BinData, r: u64) -> (s: i128)
    requires
        addr.wf(),
        data.wf(),
        r <= data.count,
        partial_sum_fits(*addr, *data, r as int),
    ensures
        s == partial_sum_spec(*addr, *data, r as int),
{
    if r == data.count {
        return data.sum;
    }
    if r <= 1 {
        return r as i128 * addr.left as i128;
    }
    let a: i128 = data.sum - addr.right as i128;
    let b: i128 = (data.count - 1) as i128 * addr.left as i128;
    let num: i128 = a - b;
    let scaled: i128 = (r - 1) as i128 * num;
    proof {
        assert(num == spacing_numerator(*addr, *data));
        assert(r * scaled == r * (r - 1) * spacing_numerator(*addr, *data)) by (nonlinear_arith)
            requires scaled == (r - 1) * num, num == spacing_numerator(*addr, *data);
    }
    let p: i128 = r as i128 * scaled;
    proof {
        assert((data.count - 1) * (data.count - 2) <= 0xffff_ffff_ffff_ffff_ffff_ffff_ffff_ffffint) by (nonlinear_arith)
            requires 3 <= data.count <= 0xffff_ffff_ffff_ffff;
        assert((data.count - 1) * (data.count - 2) > 0) by (nonlinear_arith)
            requires 3 <= data.count;
    }
    let den: u128 = (data.count - 1) as u128 * (data.count - 2) as u128;
    let q: i128 = if p >= 0 {
        (p as u128 / den) as i128
    } else {
        proof {
            assert((-(p as int)) / (den as int) <= -p) by (nonlinear_arith)
                requires -p >= 0, den >= 1;
        }
        -(((-p) as u128 / den) as i128)
    };
    proof {
        assert(p >= 0 ==> (p as int) / (den as int) <= p) by (nonlinear_arith)
            requires den >= 1;
        assert(q == trunc_div(p as int, (data.count - 1) * (data.count - 2)));
        assert(-0x8000_0000_0000_0000_0000_0000_0000_0000int < r * addr.left < 0x7fff_ffff_ffff_ffff_ffff_ffff_ffff_ffffint)
            by (nonlinear_arith)
            requires 0 <= r <= 0xffff_ffff_ffff_ffff, -0x8000_0000_0000_0000int <= addr.left < 0x8000_0000_0000_0000int;
        assert(r * addr.left + q == partial_sum_spec(*addr, *data, r as int));
    }
    r as i128 * addr.left as i128 + q
}

} // verus!
