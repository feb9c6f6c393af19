//! Hinge loss of a linear classifier on one labelled point and on a dataset.

use crate::dataset::{validate_shape, shape_error, well_shaped};
use crate::error::ClassifierError;
use crate::fixed::{ceil_div, ceil_div_wide, fx_add, fx_mul, fx_sub, lemma_ceil_div, Fixed, SCALE};
use crate::vector::{dot, dot_product};
use vstd::prelude::*;

verus! {

/// The agreement `y * (x . theta + theta_0)` between the label `y` and the
/// classifier's output on `x`. It is positive when the point lies on the
/// side of the hyperplane that its label names.
pub open spec fn margin(x: Seq<int>, y: int, theta: Seq<int>, theta_0: int) -> int {
    fx_mul(y, fx_add(dot(x, theta), theta_0))
}

/// The hinge loss `max(0, 1 - margin)` of one labelled point.
pub open spec fn hinge(x: Seq<int>, y: int, theta: Seq<int>, theta_0: int) -> int {
    let slack = fx_sub(SCALE as int, margin(x, y, theta, theta_0));
    if slack > 0 {
        slack
    } else {
        0
    }
}

/// The exact sum of the hinge losses of the first `k` rows.
pub open spec fn hinge_total(
    xs: Seq<Seq<int>>,
    ys: Seq<int>,
    theta: Seq<int>,
    theta_0: int,
    k: int,
) -> int
    decreases k,
{
    if k <= 0 {
        0
    } else {
        hinge_total(xs, ys, theta, theta_0, k - 1) + hinge(xs[k - 1], ys[k - 1], theta, theta_0)
    }
}

/// The arithmetic mean of the hinge losses of all rows, rounded up to the
/// next billionth, so that it is zero only when no row has any loss.
pub open spec fn mean_hinge(xs: Seq<Seq<int>>, ys: Seq<int>, theta: Seq<int>, theta_0: int) -> int {
    ceil_div(hinge_total(xs, ys, theta, theta_0, xs.len() as int), xs.len() as int)
}

/// Every one of the first `k` rows has a hinge loss between `lo` and `hi`.
pub open spec fn losses_within(
    xs: Seq<Seq<int>>,
    ys: Seq<int>,
    theta: Seq<int>,
    theta_0: int,
    k: int,
    lo: int,
    hi: int,
) -> bool {
    forall|i: int| 0 <= i < k ==> lo <= #[trigger] hinge(xs[i], ys[i], theta, theta_0) <= hi
}

/// The sum of `k` losses lies between `k` times the least and `k` times the
/// greatest of them, and is zero exactly when each of them is.
pub proof fn lemma_hinge_total_bounds(
    xs: Seq<Seq<int>>,
    ys: Seq<int>,
    theta: Seq<int>,
    theta_0: int,
    k: int,
    lo: int,
    hi: int,
)
    requires
        0 <= k,
        losses_within(xs, ys, theta, theta_0, k, lo, hi),
    ensures
        lo * k <= hinge_total(xs, ys, theta, theta_0, k) <= hi * k,
        0 <= hinge_total(xs, ys, theta, theta_0, k),
        hinge_total(xs, ys, theta, theta_0, k) == 0 <==> losses_within(
            xs,
            ys,
            theta,
            theta_0,
            k,
            0,
            0,
        ),
    decreases k,
{
    if k > 0 {
        lemma_hinge_total_bounds(xs, ys, theta, theta_0, k - 1, lo, hi);
        let last = hinge(xs[k - 1], ys[k - 1], theta, theta_0);
        assert(lo <= last <= hi);
        assert(lo * (k - 1) + lo == lo * k && hi * (k - 1) + hi == hi * k) by (nonlinear_arith);
        if losses_within(xs, ys, theta, theta_0, k - 1, 0, 0) && last == 0 {
            assert(losses_within(xs, ys, theta, theta_0, k, 0, 0));
        }
        if losses_within(xs, ys, theta, theta_0, k, 0, 0) {
            assert(last == 0);
            assert(losses_within(xs, ys, theta, theta_0, k - 1, 0, 0));
        }
    } else {
        assert(lo * 0 == 0 && hi * 0 == 0) by (nonlinear_arith);
    }
}

/// The mean hinge loss of a dataset with at least one row lies between the
/// least and the greatest loss of its rows, and is zero exactly when every
/// row has a margin of at least one.
pub proof fn lemma_mean_hinge(
    xs: Seq<Seq<int>>,
    ys: Seq<int>,
    theta: Seq<int>,
    theta_0: int,
    lo: int,
    hi: int,
)
    requires
        xs.len() >= 1,
        0 <= lo,
        losses_within(xs, ys, theta, theta_0, xs.len() as int, lo, hi),
    ensures
        lo <= mean_hinge(xs, ys, theta, theta_0) <= hi,
        mean_hinge(xs, ys, theta, theta_0) == 0 <==> hinge_total(
            xs,
            ys,
            theta,
            theta_0,
            xs.len() as int,
        ) == 0,
        mean_hinge(xs, ys, theta, theta_0) == 0 <==> (forall|i: int|
            0 <= i < xs.len() ==> #[trigger] margin(xs[i], ys[i], theta, theta_0) >= SCALE),
{
    let n = xs.len() as int;
    let total = hinge_total(xs, ys, theta, theta_0, n);
    lemma_hinge_total_bounds(xs, ys, theta, theta_0, n, lo, hi);
    lemma_ceil_div(total, n, lo, hi);
    if total == 0 {
        assert forall|i: int| 0 <= i < xs.len() implies #[trigger] margin(
            xs[i],
            ys[i],
            theta,
            theta_0,
        ) >= SCALE by {
            assert(hinge(xs[i], ys[i], theta, theta_0) == 0);
        }
    }
    if forall|i: int| 0 <= i < xs.len() ==> #[trigger] margin(xs[i], ys[i], theta, theta_0) >= SCALE {
        assert forall|i: int| 0 <= i < n implies 0 <= #[trigger] hinge(
            xs[i],
            ys[i],
            theta,
            theta_0,
        ) <= 0 by {
            assert(margin(xs[i], ys[i], theta, theta_0) >= SCALE);
        }
        assert(losses_within(xs, ys, theta, theta_0, n, 0, 0));
    }
}

/// The hinge loss is never negative.
pub proof fn lemma_hinge_nonnegative(x: Seq<int>, y: int, theta: Seq<int>, theta_0: int)
    ensures
        hinge(x, y, theta, theta_0) >= 0,
{
}

/// A point whose margin is at least one has no hinge loss.
pub proof fn lemma_hinge_zero_at_unit_margin(x: Seq<int>, y: int, theta: Seq<int>, theta_0: int)
    requires
        margin(x, y, theta, theta_0) >= SCALE,
    ensures
        hinge(x, y, theta, theta_0) == 0,
{
}

/// A point has hinge loss exactly when its margin is below one.
pub proof fn lemma_hinge_positive_below_unit_margin(
    x: Seq<int>,
    y: int,
    theta: Seq<int>,
    theta_0: int,
)
    ensures
        hinge(x, y, theta, theta_0) > 0 <==> margin(x, y, theta, theta_0) < SCALE,
{
}

pub(crate) fn margin_of(x: &[Fixed], y: Fixed, theta: &[Fixed], theta_0: Fixed) -> (r: Fixed)
    requires
        x@.len() == theta@.len(),
    ensures
        r@ == margin(x.deep_view(), y@, theta.deep_view(), theta_0@),
{
    y.times(dot_product(x, theta).plus(theta_0))
}

fn hinge_of(x: &[Fixed], y: Fixed, theta: &[Fixed], theta_0: Fixed) -> (r: Fixed)
    requires
        x@.len() == theta@.len(),
    ensures
        r@ == hinge(x.deep_view(), y@, theta.deep_view(), theta_0@),
{
    let slack: Fixed = Fixed::one().minus(margin_of(x, y, theta, theta_0));
    if slack.raw > 0 {
        slack
    } else {
        Fixed::zero()
    }
}

/// The hinge loss of the classifier `(theta, theta_0)` on the point
/// `feature_vector` with label `label`.
///
/// Fails with `ShapeMismatch` exactly when the point and `theta` differ in
/// dimension.
///
/// The arithmetic is that of [`Fixed`]: every product is rounded to the
/// nearest billionth, and a sum or product outside the range from
/// -9223372036.854775808 to 9223372036.854775807 saturates at the nearer end
/// of it without an error. Results are those of exact arithmetic, up to the
/// rounding of products, only while no intermediate value leaves the range.
pub fn hinge_loss_single(
    feature_vector: &[Fixed],
    label: Fixed,
    theta: &[Fixed],
    theta_0: Fixed,
) -> (r: Result<Fixed, ClassifierError>)
    ensures
        match r {
            Ok(loss) => {
                &&& feature_vector@.len() == theta@.len()
                &&& loss@ == hinge(
                    feature_vector.deep_view(),
                    label@,
                    theta.deep_view(),
                    theta_0@,
                )
                &&& loss@ >= 0
            },
            Err(e) => e == ClassifierError::ShapeMismatch && feature_vector@.len() != theta@.len(),
        },
{
    if feature_vector.len() != theta.len() {
        return Err(ClassifierError::ShapeMismatch);
    }
    Ok(hinge_of(feature_vector, label, theta, theta_0))
}

/// The hinge loss of the classifier `(theta, theta_0)` averaged over a
/// dataset: the exact sum of the losses of the rows, divided by their number
/// and rounded up to the next billionth. It is zero only when no row has any
/// loss.
///
/// Fails with `EmptyDataset` when there are no rows, and otherwise with
/// `ShapeMismatch` when the number of labels is not the number of rows or
/// some row does not have the dimension of `theta`.
///
/// The arithmetic is that of [`Fixed`]: every product is rounded to the
/// nearest billionth, and a sum or product outside the range from
/// -9223372036.854775808 to 9223372036.854775807 saturates at the nearer end
/// of it without an error. Results are those of exact arithmetic, up to the
/// rounding of products, only while no intermediate value leaves the range.
pub fn hinge_loss_full(
    feature_matrix: &Vec<Vec<Fixed>>,
    labels: &[Fixed],
    theta: &[Fixed],
    theta_0: Fixed,
) -> (r: Result<Fixed, ClassifierError>)
    ensures
        match r {
            Ok(loss) => {
                &&& shape_error(
                    feature_matrix.deep_view(),
                    labels.deep_view(),
                    theta@.len(),
                ) is None
                &&& loss@ == mean_hinge(
                    feature_matrix.deep_view(),
                    labels.deep_view(),
                    theta.deep_view(),
                    theta_0@,
                )
                &&& loss@ >= 0
                &&& loss@ == 0 <==> hinge_total(
                    feature_matrix.deep_view(),
                    labels.deep_view(),
                    theta.deep_view(),
                    theta_0@,
                    feature_matrix@.len() as int,
                ) == 0
            },
            Err(e) => shape_error(feature_matrix.deep_view(), labels.deep_view(), theta@.len())
                == Some(e),
        },
{
    match validate_shape(feature_matrix, labels, theta.len()) {
        Err(e) => {
            return Err(e);
        },
        Ok(_) => {},
    }
    let n: usize = feature_matrix.len();
    let ghost xs = feature_matrix.deep_view();
    let ghost ys = labels.deep_view();
    let ghost th = theta.deep_view();
    let mut total: i128 = 0;
    let mut i: usize = 0;
    while i < n
        invariant
            n == feature_matrix@.len(),
            n == labels@.len(),
            i <= n,
            xs == feature_matrix.deep_view(),
            ys == labels.deep_view(),
            th == theta.deep_view(),
            well_shaped(xs, ys, theta@.len()),
            total == hinge_total(xs, ys, th, theta_0@, i as int),
            0 <= total <= i * i64::MAX,
        decreases n - i,
    {
        assert(xs[i as int].len() == theta@.len());
        let loss: Fixed = hinge_of(feature_matrix[i].as_slice(), labels[i], theta, theta_0);
        assert(feature_matrix@[i as int].deep_view() == xs[i as int]);
        assert(i * i64::MAX + i64::MAX == (i + 1) * i64::MAX) by (nonlinear_arith);
        assert((i + 1) * i64::MAX <= usize::MAX * i64::MAX) by (nonlinear_arith)
            requires
                i + 1 <= usize::MAX,
        ;
        total = total + loss.raw as i128;
        i = i + 1;
    }
    proof {
        assert(0 * n == 0) by (nonlinear_arith);
        assert(n * i64::MAX == i64::MAX * n) by (nonlinear_arith);
        lemma_ceil_div(total as int, n as int, 0, i64::MAX as int);
    }
    let mean: i128 = ceil_div_wide(total, n as u64);
    Ok(Fixed { raw: mean as i64 })
}

} // verus!
