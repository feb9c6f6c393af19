//! Pegasos: sub-gradient descent on the regularised hinge loss, with a
//! learning rate that decays as the inverse square root of the step count.

use crate::dataset::{
    dimension, lemma_step_row, training_dimension, training_error, well_shaped,
};
use crate::error::ClassifierError;
use crate::fixed::{fx_add, fx_mul, fx_sub, lemma_fx_mul_one, representable, Fixed, SCALE};
use crate::hinge::{margin, margin_of};
use crate::perceptron::corrected;
use crate::vector::{add_scaled, all_representable, scale, scaled, sum_of, zero_vector, zeros};
use vstd::prelude::*;

verus! {

/// `e` is `1 / sqrt(step)` rounded down to a whole number of billionths:
/// the largest count whose square, times `step`, does not exceed one.
pub open spec fn is_learning_rate(step: int, e: int) -> bool {
    &&& 0 <= e
    &&& e * e * step <= SCALE * SCALE
    &&& SCALE * SCALE < (e + 1) * (e + 1) * step
}

/// The learning rate of the `step`-th update, counted from one.
pub open spec fn learning_rate(step: int) -> int {
    choose|e: int| is_learning_rate(step, e)
}

/// At most one count is the learning rate of a step.
pub proof fn lemma_learning_rate_unique(step: int, e1: int, e2: int)
    requires
        step >= 1,
        is_learning_rate(step, e1),
        is_learning_rate(step, e2),
    ensures
        e1 == e2,
{
    if e1 < e2 {
        assert((e1 + 1) * (e1 + 1) * step <= e2 * e2 * step) by (nonlinear_arith)
            requires
                0 <= e1,
                e1 + 1 <= e2,
                step >= 1,
        ;
    } else if e2 < e1 {
        assert((e2 + 1) * (e2 + 1) * step <= e1 * e1 * step) by (nonlinear_arith)
            requires
                0 <= e2,
                e2 + 1 <= e1,
                step >= 1,
        ;
    }
}

/// Every step from the first on has a learning rate, and it is at most one.
pub proof fn lemma_learning_rate_exists(step: int)
    requires
        step >= 1,
    ensures
        is_learning_rate(step, learning_rate(step)),
        0 <= learning_rate(step) <= SCALE,
{
    assert(0 * 0 * step <= SCALE * SCALE) by (nonlinear_arith);
    let e = lemma_learning_rate_from(step, 0);
    lemma_learning_rate_unique(step, e, learning_rate(step));
}

proof fn lemma_learning_rate_from(step: int, e: int) -> (r: int)
    requires
        step >= 1,
        0 <= e <= SCALE,
        e * e * step <= SCALE * SCALE,
    ensures
        is_learning_rate(step, r),
        r <= SCALE,
    decreases SCALE - e,
{
    if SCALE * SCALE < (e + 1) * (e + 1) * step {
        e
    } else {
        assert(e + 1 <= SCALE) by (nonlinear_arith)
            requires
                (e + 1) * (e + 1) * step <= SCALE * SCALE,
                step >= 1,
                0 <= e,
                SCALE > 0,
        ;
        lemma_learning_rate_from(step, e + 1)
    }
}

/// The learning rate `1 / sqrt(step)` of the `step`-th update, rounded down.
pub fn step_size(step: u128) -> (r: Fixed)
    requires
        step >= 1,
    ensures
        is_learning_rate(step as int, r@),
        r@ == learning_rate(step as int),
        0 <= r@ <= SCALE,
{
    let unit: u128 = 1_000_000_000_000_000_000;
    assert(unit == SCALE * SCALE) by (nonlinear_arith)
        requires
            unit == 1_000_000_000_000_000_000,
            SCALE == 1_000_000_000,
    ;
    if step > unit {
        assert(is_learning_rate(step as int, 0)) by (nonlinear_arith)
            requires
                step > SCALE * SCALE,
                SCALE == 1_000_000_000,
        ;
        proof {
            lemma_learning_rate_unique(step as int, 0, learning_rate(step as int));
        }
        return Fixed { raw: 0 };
    }
    let mut lo: u128 = 0;
    let mut hi: u128 = 1_000_000_001;
    assert(lo * lo * step <= unit < hi * hi * step) by (nonlinear_arith)
        requires
            lo == 0,
            hi == 1_000_000_001,
            unit == 1_000_000_000_000_000_000,
            step >= 1,
    ;
    while hi - lo > 1
        invariant
            1 <= step <= unit,
            unit == 1_000_000_000_000_000_000,
            lo < hi <= 1_000_000_001,
            lo * lo * step <= unit,
            unit < hi * hi * step,
        decreases hi - lo,
    {
        let mid: u128 = lo + (hi - lo) / 2;
        assert(mid * mid <= 1_000_000_001 * 1_000_000_001) by (nonlinear_arith)
            requires
                0 <= mid <= 1_000_000_001,
        ;
        assert(mid * mid * step <= 1_000_000_001 * 1_000_000_001 * 1_000_000_000_000_000_000)
            by (nonlinear_arith)
            requires
                0 <= mid * mid <= 1_000_000_001 * 1_000_000_001,
                1 <= step <= 1_000_000_000_000_000_000,
        ;
        if mid * mid * step <= unit {
            lo = mid;
        } else {
            hi = mid;
        }
    }
    assert(hi == lo + 1);
    assert(is_learning_rate(step as int, lo as int));
    proof {
        lemma_learning_rate_unique(step as int, lo as int, learning_rate(step as int));
    }
    assert(lo <= 1_000_000_000);
    Fixed { raw: lo as i64 }
}

/// The factor `1 - eta * lambda` by which regularisation shrinks `theta`.
pub open spec fn shrinkage(lambda: int, eta: int) -> int {
    fx_sub(SCALE as int, fx_mul(eta, lambda))
}

/// One Pegasos update. A point whose margin is at most one pulls the
/// classifier towards itself by `eta * y`, on top of the shrinkage; any
/// other point leaves only the shrinkage, and the offset as it was.
pub open spec fn pegasos_step(
    x: Seq<int>,
    y: int,
    lambda: int,
    eta: int,
    theta: Seq<int>,
    theta_0: int,
) -> (Seq<int>, int) {
    let shrunk = scaled(shrinkage(lambda, eta), theta);
    if margin(x, y, theta, theta_0) <= SCALE {
        (sum_of(shrunk, scaled(fx_mul(eta, y), x)), fx_add(theta_0, fx_mul(eta, y)))
    } else {
        (shrunk, theta_0)
    }
}

/// The classifier after `k` Pegasos updates, starting from zero and cycling
/// through the rows in their order: the `k`-th update uses row
/// `(k - 1) mod n` and the learning rate of step `k`.
pub open spec fn pegasos_after(xs: Seq<Seq<int>>, ys: Seq<int>, lambda: int, k: nat) -> (
    Seq<int>,
    int,
)
    decreases k,
{
    if k == 0 {
        (zeros(dimension(xs)), 0)
    } else {
        let prev = pegasos_after(xs, ys, lambda, (k - 1) as nat);
        let i = (k - 1) % (xs.len() as int);
        pegasos_step(xs[i], ys[i], lambda, learning_rate(k as int), prev.0, prev.1)
    }
}

/// Training never changes the dimension of `theta`.
pub proof fn lemma_pegasos_after_dimension(xs: Seq<Seq<int>>, ys: Seq<int>, lambda: int, k: nat)
    ensures
        pegasos_after(xs, ys, lambda, k).0.len() == dimension(xs),
    decreases k,
{
    if k > 0 {
        lemma_pegasos_after_dimension(xs, ys, lambda, (k - 1) as nat);
    }
}

/// Without regularisation, a Pegasos update is the perceptron's correction
/// with the label scaled by the learning rate, applied to every point whose
/// margin is at most one.
pub proof fn lemma_pegasos_without_regularisation(
    x: Seq<int>,
    y: int,
    eta: int,
    theta: Seq<int>,
    theta_0: int,
)
    requires
        all_representable(theta),
    ensures
        pegasos_step(x, y, 0, eta, theta, theta_0) == (if margin(x, y, theta, theta_0) <= SCALE {
            corrected(x, fx_mul(eta, y), theta, theta_0)
        } else {
            (theta, theta_0)
        }),
{
    assert(eta * 0 == 0) by (nonlinear_arith);
    assert(shrinkage(0, eta) == SCALE);
    assert forall|i: int| 0 <= i < theta.len() implies fx_mul(SCALE as int, theta[i])
        == theta[i] by {
        lemma_fx_mul_one(theta[i]);
    }
    assert(scaled(SCALE as int, theta) =~= theta);
    assert(sum_of(scaled(SCALE as int, theta), scaled(fx_mul(eta, y), x)) =~= sum_of(
        theta,
        scaled(fx_mul(eta, y), x),
    ));
}

/// Without regularisation and at learning rate one, a Pegasos update is the
/// perceptron's correction itself, applied to every point whose margin is at
/// most one.
pub proof fn lemma_pegasos_unit_rate(x: Seq<int>, y: int, theta: Seq<int>, theta_0: int)
    requires
        all_representable(theta),
        representable(y),
    ensures
        pegasos_step(x, y, 0, SCALE as int, theta, theta_0) == (if margin(x, y, theta, theta_0)
            <= SCALE {
            corrected(x, y, theta, theta_0)
        } else {
            (theta, theta_0)
        }),
{
    lemma_pegasos_without_regularisation(x, y, SCALE as int, theta, theta_0);
    lemma_fx_mul_one(y);
}

pub(crate) fn pegasos_update(
    x: &[Fixed],
    y: Fixed,
    lambda: Fixed,
    eta: Fixed,
    theta: &[Fixed],
    theta_0: Fixed,
) -> (r: (Vec<Fixed>, Fixed))
    requires
        x@.len() == theta@.len(),
    ensures
        r.deep_view() == pegasos_step(
            x.deep_view(),
            y@,
            lambda@,
            eta@,
            theta.deep_view(),
            theta_0@,
        ),
        r.0@.len() == theta@.len(),
{
    let m: Fixed = margin_of(x, y, theta, theta_0);
    let shrink: Fixed = Fixed::one().minus(eta.times(lambda));
    let shrunk: Vec<Fixed> = scale(shrink, theta);
    if m.raw <= SCALE {
        let pull: Fixed = eta.times(y);
        (add_scaled(shrunk.as_slice(), pull, x), theta_0.plus(pull))
    } else {
        (shrunk, theta_0)
    }
}

/// One Pegasos update on the point `feature_vector` with label `label`, for
/// the regularisation strength `lambda` and the learning rate `eta`, from
/// the classifier `(theta, theta_0)`. The arguments are left as they are;
/// the updated classifier is returned.
///
/// Fails with `ShapeMismatch` exactly when the point and `theta` differ in
/// dimension.
///
/// The arithmetic is that of [`Fixed`]: every product is rounded to the
/// nearest billionth, and a sum or product outside the range from
/// -9223372036.854775808 to 9223372036.854775807 saturates at the nearer end
/// of it without an error. Results are those of exact arithmetic, up to the
/// rounding of products, only while no intermediate value leaves the range.
pub fn pegasos_single_step_update(
    feature_vector: &[Fixed],
    label: Fixed,
    lambda: Fixed,
    eta: Fixed,
    theta: &[Fixed],
    theta_0: Fixed,
) -> (r: Result<(Vec<Fixed>, Fixed), ClassifierError>)
    ensures
        match r {
            Ok(next) => {
                &&& feature_vector@.len() == theta@.len()
                &&& next.deep_view() == pegasos_step(
                    feature_vector.deep_view(),
                    label@,
                    lambda@,
                    eta@,
                    theta.deep_view(),
                    theta_0@,
                )
            },
            Err(e) => e == ClassifierError::ShapeMismatch && feature_vector@.len() != theta@.len(),
        },
{
    if feature_vector.len() != theta.len() {
        return Err(ClassifierError::ShapeMismatch);
    }
    Ok(pegasos_update(feature_vector, label, lambda, eta, theta, theta_0))
}

/// Trains a classifier by `t` full passes of Pegasos updates over the
/// dataset, in the order of its rows. The `k`-th update overall, counted
/// from one across all passes, uses the learning rate `1 / sqrt(k)`.
///
/// Fails with `EmptyDataset` when there are no rows, and otherwise with
/// `ShapeMismatch` when the number of labels is not the number of rows or
/// some row does not have the dimension of the first.
///
/// The arithmetic is that of [`Fixed`]: every product is rounded to the
/// nearest billionth, and a sum or product outside the range from
/// -9223372036.854775808 to 9223372036.854775807 saturates at the nearer end
/// of it without an error. Results are those of exact arithmetic, up to the
/// rounding of products, only while no intermediate value leaves the range.
pub fn pegasos(feature_matrix: &Vec<Vec<Fixed>>, labels: &[Fixed], t: usize, lambda: Fixed) -> (r:
    Result<(Vec<Fixed>, Fixed), ClassifierError>)
    ensures
        match r {
            Ok(trained) => {
                &&& training_error(feature_matrix.deep_view(), labels.deep_view()) is None
                &&& trained.deep_view() == pegasos_after(
                    feature_matrix.deep_view(),
                    labels.deep_view(),
                    lambda@,
                    (t * feature_matrix@.len()) as nat,
                )
                &&& trained.0@.len() == dimension(feature_matrix.deep_view())
            },
            Err(e) => training_error(feature_matrix.deep_view(), labels.deep_view()) == Some(e),
        },
{
    let n: usize = feature_matrix.len();
    let d: usize = match training_dimension(feature_matrix, labels) {
        Err(e) => {
            return Err(e);
        },
        Ok(d) => d,
    };
    let ghost xs = feature_matrix.deep_view();
    let ghost ys = labels.deep_view();
    let mut theta: Vec<Fixed> = zero_vector(d);
    let mut theta_0: Fixed = Fixed::zero();
    let mut step: u128 = 0;
    let mut epoch: usize = 0;
    while epoch < t
        invariant
            n == feature_matrix@.len(),
            n == labels@.len(),
            n > 0,
            xs == feature_matrix.deep_view(),
            ys == labels.deep_view(),
            d == dimension(xs),
            well_shaped(xs, ys, d as nat),
            epoch <= t,
            step == epoch * n,
            theta@.len() == d,
            (theta.deep_view(), theta_0@) == pegasos_after(xs, ys, lambda@, step as nat),
        decreases t - epoch,
    {
        proof {
            assert(epoch * n + n <= 0xffff_ffff_ffff_ffff * 0xffff_ffff_ffff_ffff)
                by (nonlinear_arith)
                requires
                    0 <= epoch < 0xffff_ffff_ffff_ffff,
                    0 <= n <= 0xffff_ffff_ffff_ffff,
            ;
            lemma_step_row(epoch as int, n as int, 0);
        }
        let mut i: usize = 0;
        while i < n
            invariant
                n == feature_matrix@.len(),
                n == labels@.len(),
                xs == feature_matrix.deep_view(),
                ys == labels.deep_view(),
                d == dimension(xs),
                well_shaped(xs, ys, d as nat),
                i <= n,
                step == epoch * n + i,
                epoch * n + n <= 0xffff_ffff_ffff_ffff * 0xffff_ffff_ffff_ffff,
                theta@.len() == d,
                (theta.deep_view(), theta_0@) == pegasos_after(xs, ys, lambda@, step as nat),
            decreases n - i,
        {
            proof {
                lemma_step_row(epoch as int, n as int, i as int);
                assert(xs[i as int].len() == d);
                assert(feature_matrix@[i as int].deep_view() == xs[i as int]);
            }
            step = step + 1;
            let eta: Fixed = step_size(step);
            let next = pegasos_update(
                feature_matrix[i].as_slice(),
                labels[i],
                lambda,
                eta,
                theta.as_slice(),
                theta_0,
            );
            theta = next.0;
            theta_0 = next.1;
            i = i + 1;
        }
        epoch = epoch + 1;
    }
    Ok((theta, theta_0))
}

} // verus!
