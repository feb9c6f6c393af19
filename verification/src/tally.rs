//! Running totals that cannot overflow: a sum of many numbers, kept as a
//! quotient and a remainder by the count that it is to be divided by.

use crate::fixed::{lemma_round_div_bounds, round_div};
use vstd::prelude::*;

verus! {

/// A total `quotient * count + remainder`, for a count fixed beforehand.
#[derive(Clone, Copy, Debug)]
pub struct Tally {
    pub quotient: i128,
    pub remainder: u128,
}

impl Tally {
    /// The total that the tally stands for under `count`.
    pub open spec fn total(self, count: int) -> int {
        self.quotient * count + self.remainder
    }

    /// The remainder is below the count and the quotient within the `i64`
    /// range.
    pub open spec fn wf(self, count: int) -> bool {
        &&& 0 <= self.remainder < count
        &&& i64::MIN <= self.quotient <= i64::MAX
    }
}

/// A total that lies between `count` times the least and `count` times the
/// greatest `i64` has a quotient within the `i64` range.
pub proof fn lemma_quotient_within(q: int, r: int, count: int)
    requires
        count >= 1,
        0 <= r < count,
        count * i64::MIN <= q * count + r <= count * i64::MAX,
    ensures
        i64::MIN <= q <= i64::MAX,
{
    assert(q <= i64::MAX) by (nonlinear_arith)
        requires
            count >= 1,
            0 <= r,
            q * count + r <= count * i64::MAX,
    ;
    assert(q >= i64::MIN) by (nonlinear_arith)
        requires
            count >= 1,
            r < count,
            count * i64::MIN <= q * count + r,
    ;
}

pub(crate) fn tally_zero(count: u128) -> (r: Tally)
    requires
        count >= 1,
    ensures
        r.wf(count as int),
        r.total(count as int) == 0,
{
    assert(0 * count == 0) by (nonlinear_arith);
    Tally { quotient: 0, remainder: 0 }
}

/// Adds one number to a tally that has room for it.
pub(crate) fn tally_add(tally: Tally, v: i64, count: u128) -> (r: Tally)
    requires
        count >= 1,
        tally.wf(count as int),
        (count - 1) * i64::MIN <= tally.total(count as int) <= (count - 1) * i64::MAX,
    ensures
        r.wf(count as int),
        r.total(count as int) == tally.total(count as int) + v,
{
    let q: i128 = tally.quotient;
    let r: u128 = tally.remainder;
    let mut a: i128;
    let b: u128;
    if v >= 0 {
        let vm: u128 = v as u128;
        a = (vm / count) as i128;
        b = vm % count;
        assert(v == a * count + b) by (nonlinear_arith)
            requires
                a == vm / count,
                b == vm % count,
                v == vm,
                count >= 1,
        ;
    } else {
        let vm: u128 = (-(v as i128)) as u128;
        let a0: u128 = vm / count;
        let b0: u128 = vm % count;
        assert(vm == a0 * count + b0 && a0 <= vm) by (nonlinear_arith)
            requires
                a0 == vm / count,
                b0 == vm % count,
                count >= 1,
        ;
        if b0 == 0 {
            a = -(a0 as i128);
            b = 0;
            assert(v == a * count + b) by (nonlinear_arith)
                requires
                    -v == a0 * count,
                    a == -a0,
                    b == 0,
            ;
        } else {
            a = -(a0 as i128) - 1;
            b = count - b0;
            assert(v == a * count + b) by (nonlinear_arith)
                requires
                    -v == a0 * count + b0,
                    a == -a0 - 1,
                    b == count - b0,
            ;
        }
    }
    assert(-0x8000_0000_0000_0000 - 1 <= a <= 0x8000_0000_0000_0000) by (nonlinear_arith)
        requires
            v == a * count + b,
            0 <= b < count,
            count >= 1,
            -0x8000_0000_0000_0000 <= v <= 0x7fff_ffff_ffff_ffff,
    ;
    let result: Tally = if r >= count - b {
        Tally { quotient: q + a + 1, remainder: r - (count - b) }
    } else {
        Tally { quotient: q + a, remainder: r + b }
    };
    proof {
        let c = count as int;
        assert(result.quotient * c + result.remainder == q * c + r + (a * c + b)) by (nonlinear_arith)
            requires
                (result.quotient == q + a + 1 && result.remainder == r - (c - b)) || (
                result.quotient == q + a && result.remainder == r + b),
        ;
        assert((c - 1) * i64::MIN + i64::MIN == c * i64::MIN && (c - 1) * i64::MAX + i64::MAX == c
            * i64::MAX) by (nonlinear_arith);
        lemma_quotient_within(result.quotient as int, result.remainder as int, c);
    }
    result
}

/// The total of a tally divided by its count, rounded to nearest, halves
/// away from zero.
pub(crate) fn tally_mean(tally: Tally, count: u128) -> (m: i64)
    requires
        count >= 1,
        tally.wf(count as int),
        count * i64::MIN <= tally.total(count as int) <= count * i64::MAX,
    ensures
        m == round_div(tally.total(count as int), count as int),
{
    let q: i128 = tally.quotient;
    let r: u128 = tally.remainder;
    let half: u128 = count / 2;
    let ghost c = count as int;
    let ghost n = tally.total(c);
    proof {
        assert(i64::MIN * c == c * i64::MIN && i64::MAX * c == c * i64::MAX) by (nonlinear_arith);
        lemma_round_div_bounds(n, c, i64::MIN as int, i64::MAX as int);
    }
    let m: i128 = if q >= 0 {
        let up: i128 = if r >= count - half {
            1
        } else {
            0
        };
        assert(n >= 0 && (n + c / 2) / c == q + up) by (nonlinear_arith)
            requires
                n == q * c + r,
                q >= 0,
                0 <= r < c,
                c >= 1,
                up == if r >= c - c / 2 {
                    1int
                } else {
                    0int
                },
        ;
        q + up
    } else if r == 0 {
        assert(n < 0 && (-n + c / 2) / c == -q) by (nonlinear_arith)
            requires
                n == q * c,
                q < 0,
                c >= 1,
        ;
        q
    } else {
        let up: i128 = if r <= half {
            1
        } else {
            0
        };
        assert(n < 0 && (-n + c / 2) / c == -q - 1 + up) by (nonlinear_arith)
            requires
                n == q * c + r,
                q < 0,
                0 < r < c,
                c >= 1,
                up == if r <= c / 2 {
                    1int
                } else {
                    0int
                },
        ;
        q + 1 - up
    };
    m as i64
}

} // verus!
