//! Decimal fixed-point numbers with nine fractional digits.
//!
//! A [`Fixed`] stores a signed count of billionths, so the numbers run from
//! -9223372036.854775808 to 9223372036.854775807. Sums and differences
//! saturate at the ends of that range; products are rounded to the nearest
//! billionth, halves away from zero, and then saturate. Saturation is
//! silent: no operation fails. Within the range, sums and differences are
//! exact and a product is within half a billionth of the exact one
//! ([`lemma_accuracy_within_range`]).

use vstd::prelude::*;

verus! {

/// Raw units per whole: one is `SCALE` billionths.
pub const SCALE: i64 = 1_000_000_000;

/// A signed decimal fixed-point number. Its view is `raw`, the number of
/// billionths it stands for.
#[derive(Clone, Copy, Debug, PartialEq, Eq, Structural)]
pub struct Fixed {
    pub raw: i64,
}

impl View for Fixed {
    type V = int;

    open spec fn view(&self) -> int {
        self.raw as int
    }
}

impl DeepView for Fixed {
    type V = int;

    open spec fn deep_view(&self) -> int {
        self.raw as int
    }
}

/// Whether `v` is the raw count of some `Fixed`.
pub open spec fn representable(v: int) -> bool {
    i64::MIN <= v <= i64::MAX
}

/// The nearest representable raw count to `v`.
pub open spec fn clamp(v: int) -> int {
    if v < i64::MIN {
        i64::MIN as int
    } else if v > i64::MAX {
        i64::MAX as int
    } else {
        v
    }
}

/// `n / d` rounded to the nearest integer, halves away from zero.
pub open spec fn round_div(n: int, d: int) -> int
    recommends
        d > 0,
{
    if n >= 0 {
        (n + d / 2) / d
    } else {
        -((-n + d / 2) / d)
    }
}

/// A rounded quotient lies between any two integers that bound the exact one.
pub proof fn lemma_round_div_bounds(n: int, d: int, lo: int, hi: int)
    requires
        d > 0,
        lo <= 0 <= hi,
        lo * d <= n <= hi * d,
    ensures
        lo <= round_div(n, d) <= hi,
{
    if n >= 0 {
        assert(0 <= (n + d / 2) / d <= hi) by (nonlinear_arith)
            requires
                d > 0,
                0 <= n <= hi * d,
                0 <= d / 2 < d,
        ;
    } else {
        assert((-lo) * d == -(lo * d)) by (nonlinear_arith);
        assert(0 <= (-n + d / 2) / d <= -lo) by (nonlinear_arith)
            requires
                d > 0,
                0 <= -n <= (-lo) * d,
                0 <= d / 2 < d,
        ;
    }
}

/// Saturating sum of two raw counts.
pub open spec fn fx_add(a: int, b: int) -> int {
    clamp(a + b)
}

/// Saturating difference of two raw counts.
pub open spec fn fx_sub(a: int, b: int) -> int {
    clamp(a - b)
}

/// Product of two raw counts, rescaled, rounded and saturated.
pub open spec fn fx_mul(a: int, b: int) -> int {
    clamp(round_div(a * b, SCALE as int))
}

/// A rounded quotient is within half a divisor of the exact one.
pub proof fn lemma_round_div_error(n: int, d: int)
    requires
        d > 0,
    ensures
        -d <= 2 * (round_div(n, d) * d - n) <= d,
{
    if n >= 0 {
        let q = (n + d / 2) / d;
        assert(q * d <= n + d / 2 < q * d + d) by (nonlinear_arith)
            requires
                q == (n + d / 2) / d,
                d > 0,
        ;
    } else {
        let q = (-n + d / 2) / d;
        assert(q * d <= -n + d / 2 < q * d + d) by (nonlinear_arith)
            requires
                q == (-n + d / 2) / d,
                d > 0,
        ;
        assert((-q) * d == -(q * d)) by (nonlinear_arith);
    }
}

/// The rounded product does not depend on the order of its factors.
pub proof fn lemma_fx_mul_commutative(a: int, b: int)
    ensures
        fx_mul(a, b) == fx_mul(b, a),
{
    assert(a * b == b * a) by (nonlinear_arith);
}

/// One is the unit of the rounded product.
pub proof fn lemma_fx_mul_one(a: int)
    requires
        representable(a),
    ensures
        fx_mul(SCALE as int, a) == a,
        fx_mul(a, SCALE as int) == a,
{
    let s = SCALE as int;
    lemma_fx_mul_commutative(a, s);
    if a >= 0 {
        assert((s * a + s / 2) / s == a) by (nonlinear_arith)
            requires
                s == 1_000_000_000,
                a >= 0,
        ;
    } else {
        assert(-(s * a) == s * (-a)) by (nonlinear_arith);
        assert((s * (-a) + s / 2) / s == -a) by (nonlinear_arith)
            requires
                s == 1_000_000_000,
                -a >= 0,
        ;
    }
}

/// `n / d` rounded up to the next integer, for `n` not negative.
pub open spec fn ceil_div(n: int, d: int) -> int
    recommends
        n >= 0,
        d > 0,
{
    (n + d - 1) / d
}

/// A quotient rounded up is zero only for a zero numerator, is at least the
/// exact quotient, and stays below any integer bound on it.
pub proof fn lemma_ceil_div(n: int, d: int, lo: int, hi: int)
    requires
        d > 0,
        0 <= lo,
        lo * d <= n <= hi * d,
    ensures
        lo <= ceil_div(n, d) <= hi,
        ceil_div(n, d) == 0 <==> n == 0,
        n <= ceil_div(n, d) * d < n + d,
{
    let q = (n + d - 1) / d;
    assert(q * d <= n + d - 1 < q * d + d) by (nonlinear_arith)
        requires
            q == (n + d - 1) / d,
            d > 0,
    ;
    assert(n >= 0) by (nonlinear_arith)
        requires
            lo * d <= n,
            0 <= lo,
            d > 0,
    ;
    assert(lo <= q <= hi) by (nonlinear_arith)
        requires
            q * d <= n + d - 1 < q * d + d,
            lo * d <= n <= hi * d,
            d > 0,
    ;
    assert(q == 0 <==> n == 0) by (nonlinear_arith)
        requires
            q * d <= n + d - 1 < q * d + d,
            n >= 0,
            d > 0,
    ;
}

/// Sums and differences are exact, and products are within half a
/// billionth of the exact product, as long as the result is representable:
/// only a result beyond the range is moved, to the nearest end of it.
pub proof fn lemma_accuracy_within_range(a: int, b: int)
    ensures
        representable(a + b) ==> fx_add(a, b) == a + b,
        representable(a - b) ==> fx_sub(a, b) == a - b,
        representable(round_div(a * b, SCALE as int)) ==> -SCALE <= 2 * (fx_mul(a, b) * SCALE - a
            * b) <= SCALE,
        !representable(a + b) ==> fx_add(a, b) == i64::MAX || fx_add(a, b) == i64::MIN,
        !representable(a - b) ==> fx_sub(a, b) == i64::MAX || fx_sub(a, b) == i64::MIN,
        !representable(round_div(a * b, SCALE as int)) ==> fx_mul(a, b) == i64::MAX || fx_mul(a, b)
            == i64::MIN,
{
    lemma_round_div_error(a * b, SCALE as int);
}

pub(crate) fn ceil_div_wide(n: i128, d: u64) -> (q: i128)
    requires
        d > 0,
        n >= 0,
    ensures
        q == ceil_div(n as int, d as int),
{
    let m: u128 = n as u128 + (d - 1) as u128;
    let q: u128 = m / (d as u128);
    assert(q <= n) by (nonlinear_arith)
        requires
            q == (n + d - 1) / (d as int),
            0 <= n,
            d > 0,
    ;
    q as i128
}

/// Narrows a wide intermediate to the `i64` range.
pub fn saturate(v: i128) -> (r: i64)
    ensures
        r == clamp(v as int),
{
    if v < i64::MIN as i128 {
        i64::MIN
    } else if v > i64::MAX as i128 {
        i64::MAX
    } else {
        v as i64
    }
}

/// Rounded quotient of a wide numerator by a positive divisor.
pub fn round_div_wide(n: i128, d: u64) -> (q: i128)
    requires
        d > 0,
    ensures
        q == round_div(n as int, d as int),
{
    let half: u128 = (d / 2) as u128;
    if n >= 0 {
        let m: u128 = n as u128;
        let q: u128 = (m + half) / (d as u128);
        assert(q <= m) by (nonlinear_arith)
            requires
                q == (m + half) / (d as int),
                half == d / 2,
                0 <= m,
                d > 0,
        ;
        q as i128
    } else {
        let m: u128 = (-(n + 1)) as u128 + 1;
        let q: u128 = (m + half) / (d as u128);
        assert(q <= m) by (nonlinear_arith)
            requires
                q == (m + half) / (d as int),
                half == d / 2,
                0 < m,
                d > 0,
        ;
        if q > i128::MAX as u128 {
            i128::MIN
        } else {
            -(q as i128)
        }
    }
}

impl Fixed {
    /// The number whose raw count is `raw`.
    pub fn from_raw(raw: i64) -> (r: Fixed)
        ensures
            r@ == raw,
    {
        Fixed { raw }
    }

    /// The whole number `n`.
    pub fn from_int(n: i32) -> (r: Fixed)
        ensures
            r@ == n * SCALE,
    {
        Fixed { raw: (n as i64) * SCALE }
    }

    /// Zero.
    pub fn zero() -> (r: Fixed)
        ensures
            r@ == 0,
    {
        Fixed { raw: 0 }
    }

    /// One.
    pub fn one() -> (r: Fixed)
        ensures
            r@ == SCALE,
    {
        Fixed { raw: SCALE }
    }

    /// The raw count of billionths.
    pub fn raw(self) -> (r: i64)
        ensures
            r == self@,
    {
        self.raw
    }

    /// Saturating sum.
    pub fn plus(self, rhs: Fixed) -> (r: Fixed)
        ensures
            r@ == fx_add(self@, rhs@),
    {
        let s: i128 = self.raw as i128 + rhs.raw as i128;
        Fixed { raw: saturate(s) }
    }

    /// Saturating difference.
    pub fn minus(self, rhs: Fixed) -> (r: Fixed)
        ensures
            r@ == fx_sub(self@, rhs@),
    {
        let s: i128 = self.raw as i128 - rhs.raw as i128;
        Fixed { raw: saturate(s) }
    }

    /// Rounded, saturating product.
    pub fn times(self, rhs: Fixed) -> (r: Fixed)
        ensures
            r@ == fx_mul(self@, rhs@),
    {
        let a: i128 = self.raw as i128;
        let b: i128 = rhs.raw as i128;
        assert(-0x4000_0000_0000_0000_0000_0000_0000_0000 <= a * b
            <= 0x4000_0000_0000_0000_0000_0000_0000_0000) by (nonlinear_arith)
            requires
                -0x8000_0000_0000_0000 <= a <= 0x7fff_ffff_ffff_ffff,
                -0x8000_0000_0000_0000 <= b <= 0x7fff_ffff_ffff_ffff,
        ;
        let p: i128 = a * b;
        let q: i128 = round_div_wide(p, SCALE as u64);
        Fixed { raw: saturate(q) }
    }
}

} // verus!
