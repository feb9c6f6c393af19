//! The perceptron rule: a mistake-driven update for one labelled point, the
//! training loop that applies it pass after pass, and the variant that
//! averages every intermediate classifier.

use crate::dataset::{
    dimension, lemma_step_row, training_dimension, training_error, well_shaped,
};
use crate::error::ClassifierError;
use crate::fixed::{fx_add, representable, round_div, Fixed};
use crate::hinge::{hinge, margin, margin_of};
use crate::tally::{tally_add, tally_mean, tally_zero, Tally};
use crate::vector::{add_scaled, copy_of, scaled, sum_of, zero_vector, zeros};
use vstd::prelude::*;

verus! {

/// Raw count of the tolerance `1e-7`: a margin no greater than this counts as
/// a mistake, so that a point on the boundary is corrected too.
pub const TOLERANCE: i64 = 100;

/// The classifier moved towards the point: `(theta + y * x, theta_0 + y)`.
pub open spec fn corrected(x: Seq<int>, y: int, theta: Seq<int>, theta_0: int) -> (Seq<int>, int) {
    (sum_of(theta, scaled(y, x)), fx_add(theta_0, y))
}

/// One application of the perceptron rule. A point whose margin exceeds the
/// tolerance leaves the classifier as it is; any other point corrects it.
pub open spec fn perceptron_step(x: Seq<int>, y: int, theta: Seq<int>, theta_0: int) -> (
    Seq<int>,
    int,
) {
    if margin(x, y, theta, theta_0) <= TOLERANCE {
        corrected(x, y, theta, theta_0)
    } else {
        (theta, theta_0)
    }
}

/// The perceptron rule changes the classifier exactly when the margin does
/// not exceed the tolerance, provided that the label is not zero and the
/// corrected offset does not saturate.
pub proof fn lemma_perceptron_step_changes(x: Seq<int>, y: int, theta: Seq<int>, theta_0: int)
    requires
        y != 0,
        representable(theta_0 + y),
    ensures
        perceptron_step(x, y, theta, theta_0) == (theta, theta_0) <==> margin(
            x,
            y,
            theta,
            theta_0,
        ) > TOLERANCE,
{
}

/// A point without hinge loss is no mistake: the perceptron rule leaves the
/// classifier as it is.
pub proof fn lemma_no_loss_no_correction(x: Seq<int>, y: int, theta: Seq<int>, theta_0: int)
    requires
        hinge(x, y, theta, theta_0) == 0,
    ensures
        perceptron_step(x, y, theta, theta_0) == (theta, theta_0),
{
}

/// The classifier after `k` applications of the perceptron rule, starting
/// from zero and cycling through the rows in their order: the `k`-th
/// application uses row `(k - 1) mod n`.
pub open spec fn perceptron_after(xs: Seq<Seq<int>>, ys: Seq<int>, k: nat) -> (Seq<int>, int)
    decreases k,
{
    if k == 0 {
        (zeros(dimension(xs)), 0)
    } else {
        let prev = perceptron_after(xs, ys, (k - 1) as nat);
        let i = (k - 1) % (xs.len() as int);
        perceptron_step(xs[i], ys[i], prev.0, prev.1)
    }
}

/// Training never changes the dimension of `theta`.
pub proof fn lemma_perceptron_after_dimension(xs: Seq<Seq<int>>, ys: Seq<int>, k: nat)
    ensures
        perceptron_after(xs, ys, k).0.len() == dimension(xs),
    decreases k,
{
    if k > 0 {
        lemma_perceptron_after_dimension(xs, ys, (k - 1) as nat);
    }
}

pub(crate) fn perceptron_update(x: &[Fixed], y: Fixed, theta: &[Fixed], theta_0: Fixed) -> (r: (
    Vec<Fixed>,
    Fixed,
))
    requires
        x@.len() == theta@.len(),
    ensures
        r.deep_view() == perceptron_step(x.deep_view(), y@, theta.deep_view(), theta_0@),
        r.0@.len() == theta@.len(),
{
    let m: Fixed = margin_of(x, y, theta, theta_0);
    if m.raw <= TOLERANCE {
        (add_scaled(theta, y, x), theta_0.plus(y))
    } else {
        let kept: Vec<Fixed> = copy_of(theta);
        assert(kept.deep_view() =~= theta.deep_view());
        (kept, theta_0)
    }
}

/// One step of the perceptron rule on the point `feature_vector` with label
/// `label`, from the classifier `(theta, theta_0)`. The arguments are left
/// as they are; the updated classifier is returned.
///
/// Fails with `ShapeMismatch` exactly when the point and `theta` differ in
/// dimension.
///
/// The arithmetic is that of [`Fixed`]: every product is rounded to the
/// nearest billionth, and a sum or product outside the range from
/// -9223372036.854775808 to 9223372036.854775807 saturates at the nearer end
/// of it without an error. Results are those of exact arithmetic, up to the
/// rounding of products, only while no intermediate value leaves the range.
pub fn perceptron_single_step_update(
    feature_vector: &[Fixed],
    label: Fixed,
    theta: &[Fixed],
    theta_0: Fixed,
) -> (r: Result<(Vec<Fixed>, Fixed), ClassifierError>)
    ensures
        match r {
            Ok(next) => {
                &&& feature_vector@.len() == theta@.len()
                &&& next.deep_view() == perceptron_step(
                    feature_vector.deep_view(),
                    label@,
                    theta.deep_view(),
                    theta_0@,
                )
                &&& margin(feature_vector.deep_view(), label@, theta.deep_view(), theta_0@)
                    > TOLERANCE ==> next.deep_view() == (theta.deep_view(), theta_0@)
                &&& margin(feature_vector.deep_view(), label@, theta.deep_view(), theta_0@)
                    <= TOLERANCE ==> next.deep_view() == corrected(
                    feature_vector.deep_view(),
                    label@,
                    theta.deep_view(),
                    theta_0@,
                )
            },
            Err(e) => e == ClassifierError::ShapeMismatch && feature_vector@.len() != theta@.len(),
        },
{
    if feature_vector.len() != theta.len() {
        return Err(ClassifierError::ShapeMismatch);
    }
    Ok(perceptron_update(feature_vector, label, theta, theta_0))
}

/// Trains a classifier by `t` full passes of the perceptron rule over the
/// dataset, in the order of its rows and without stopping early.
///
/// Fails with `EmptyDataset` when there are no rows, and otherwise with
/// `ShapeMismatch` when the number of labels is not the number of rows or
/// some row does not have the dimension of the first.
///
/// The arithmetic is that of [`Fixed`]: every product is rounded to the
/// nearest billionth, and a sum or product outside the range from
/// -9223372036.854775808 to 9223372036.854775807 saturates at the nearer end
/// of it without an error. Results are those of exact arithmetic, up to the
/// rounding of products, only while no intermediate value leaves the range.
pub fn perceptron(feature_matrix: &Vec<Vec<Fixed>>, labels: &[Fixed], t: usize) -> (r: Result<
    (Vec<Fixed>, Fixed),
    ClassifierError,
>)
    ensures
        match r {
            Ok(trained) => {
                &&& training_error(feature_matrix.deep_view(), labels.deep_view()) is None
                &&& trained.deep_view() == perceptron_after(
                    feature_matrix.deep_view(),
                    labels.deep_view(),
                    (t * feature_matrix@.len()) as nat,
                )
                &&& trained.0@.len() == dimension(feature_matrix.deep_view())
            },
            Err(e) => training_error(feature_matrix.deep_view(), labels.deep_view()) == Some(e),
        },
{
    let n: usize = feature_matrix.len();
    let d: usize = match training_dimension(feature_matrix, labels) {
        Err(e) => {
            return Err(e);
        },
        Ok(d) => d,
    };
    let ghost xs = feature_matrix.deep_view();
    let ghost ys = labels.deep_view();
    let mut theta: Vec<Fixed> = zero_vector(d);
    let mut theta_0: Fixed = Fixed::zero();
    let ghost mut k: nat = 0;
    let mut epoch: usize = 0;
    while epoch < t
        invariant
            n == feature_matrix@.len(),
            n == labels@.len(),
            n > 0,
            xs == feature_matrix.deep_view(),
            ys == labels.deep_view(),
            d == dimension(xs),
            well_shaped(xs, ys, d as nat),
            epoch <= t,
            k == epoch * n,
            theta@.len() == d,
            (theta.deep_view(), theta_0@) == perceptron_after(xs, ys, k),
        decreases t - epoch,
    {
        let mut i: usize = 0;
        while i < n
            invariant
                n == feature_matrix@.len(),
                n == labels@.len(),
                xs == feature_matrix.deep_view(),
                ys == labels.deep_view(),
                d == dimension(xs),
                well_shaped(xs, ys, d as nat),
                i <= n,
                k == epoch * n + i,
                theta@.len() == d,
                (theta.deep_view(), theta_0@) == perceptron_after(xs, ys, k),
            decreases n - i,
        {
            proof {
                lemma_step_row(epoch as int, n as int, i as int);
                assert(xs[i as int].len() == d);
                assert(feature_matrix@[i as int].deep_view() == xs[i as int]);
            }
            let next = perceptron_update(
                feature_matrix[i].as_slice(),
                labels[i],
                theta.as_slice(),
                theta_0,
            );
            theta = next.0;
            theta_0 = next.1;
            proof {
                k = k + 1;
            }
            i = i + 1;
        }
        proof {
            lemma_step_row(epoch as int, n as int, 0);
        }
        epoch = epoch + 1;
    }
    Ok((theta, theta_0))
}

/// The exact sum of the offsets that the first `k` applications of the
/// perceptron rule produce, one after each application.
pub open spec fn offset_sum(xs: Seq<Seq<int>>, ys: Seq<int>, k: nat) -> int
    decreases k,
{
    if k == 0 {
        0
    } else {
        offset_sum(xs, ys, (k - 1) as nat) + perceptron_after(xs, ys, k).1
    }
}

/// The exact sum of the `j`-th coefficients that the first `k` applications
/// of the perceptron rule produce, one after each application.
pub open spec fn weight_sum(xs: Seq<Seq<int>>, ys: Seq<int>, k: nat, j: int) -> int
    decreases k,
{
    if k == 0 {
        0
    } else {
        weight_sum(xs, ys, (k - 1) as nat, j) + perceptron_after(xs, ys, k).0[j]
    }
}

/// The arithmetic mean of the `k` classifiers that the first `k`
/// applications of the perceptron rule produce, each sum rounded once.
pub open spec fn averaged(xs: Seq<Seq<int>>, ys: Seq<int>, k: nat) -> (Seq<int>, int) {
    (
        Seq::new(dimension(xs), |j: int| round_div(weight_sum(xs, ys, k, j), k as int)),
        round_div(offset_sum(xs, ys, k), k as int),
    )
}

/// The offsets that the first `k` applications of the perceptron rule
/// produce, in their order, those of applications that changed nothing
/// included.
pub open spec fn offsets(xs: Seq<Seq<int>>, ys: Seq<int>, k: nat) -> Seq<int> {
    Seq::new(k, |j: int| perceptron_after(xs, ys, (j + 1) as nat).1)
}

/// The exact sum of the entries of `s`.
pub open spec fn total(s: Seq<int>) -> int
    decreases s.len(),
{
    if s.len() == 0 {
        0
    } else {
        total(s.drop_last()) + s.last()
    }
}

/// The averaged offset after any number of applications is the arithmetic
/// mean of all the intermediate offsets, rounded once.
pub proof fn lemma_averaged_offset_is_mean(xs: Seq<Seq<int>>, ys: Seq<int>, k: nat)
    ensures
        offset_sum(xs, ys, k) == total(offsets(xs, ys, k)),
        averaged(xs, ys, k).1 == round_div(total(offsets(xs, ys, k)), k as int),
    decreases k,
{
    if k > 0 {
        lemma_averaged_offset_is_mean(xs, ys, (k - 1) as nat);
        assert(offsets(xs, ys, k).drop_last() =~= offsets(xs, ys, (k - 1) as nat));
        assert(offsets(xs, ys, k).last() == perceptron_after(xs, ys, k).1);
    }
}

/// Every tally has room for one more term.
spec fn have_room(tallies: Seq<Tally>, count: int) -> bool {
    forall|j: int|
        0 <= j < tallies.len() ==> (#[trigger] tallies[j]).wf(count) && (count - 1) * i64::MIN
            <= tallies[j].total(count) <= (count - 1) * i64::MAX
}

fn accumulate(tallies: &mut Vec<Tally>, theta: &Vec<Fixed>, count: u128)
    requires
        count >= 1,
        old(tallies)@.len() == theta@.len(),
        have_room(old(tallies)@, count as int),
    ensures
        final(tallies)@.len() == old(tallies)@.len(),
        forall|j: int|
            0 <= j < old(tallies)@.len() ==> (#[trigger] final(tallies)@[j]).wf(count as int)
                && final(tallies)@[j].total(count as int) == old(tallies)@[j].total(count as int)
                + theta@[j]@,
{
    let d: usize = theta.len();
    let mut j: usize = 0;
    while j < d
        invariant
            count >= 1,
            d == theta@.len(),
            tallies@.len() == d,
            old(tallies)@.len() == d,
            j <= d,
            have_room(old(tallies)@, count as int),
            forall|m: int|
                0 <= m < j ==> (#[trigger] tallies@[m]).wf(count as int) && tallies@[m].total(
                    count as int,
                ) == old(tallies)@[m].total(count as int) + theta@[m]@,
            forall|m: int| j <= m < d ==> #[trigger] tallies@[m] == old(tallies)@[m],
        decreases d - j,
    {
        assert(old(tallies)@[j as int].wf(count as int));
        let updated: Tally = tally_add(tallies[j], theta[j].raw, count);
        tallies.set(j, updated);
        j = j + 1;
    }
}

fn zero_tallies(d: usize, count: u128) -> (r: Vec<Tally>)
    requires
        count >= 1,
    ensures
        r@.len() == d,
        forall|j: int| 0 <= j < d ==> (#[trigger] r@[j]).wf(count as int) && r@[j].total(
            count as int,
        ) == 0,
{
    let mut v: Vec<Tally> = Vec::new();
    let mut i: usize = 0;
    while i < d
        invariant
            count >= 1,
            i <= d,
            v@.len() == i,
            forall|j: int| 0 <= j < i ==> (#[trigger] v@[j]).wf(count as int) && v@[j].total(
                count as int,
            ) == 0,
        decreases d - i,
    {
        v.push(tally_zero(count));
        i = i + 1;
    }
    v
}

/// Trains as [`perceptron`] does and returns the arithmetic mean of the
/// classifiers that stood after each single application of the rule,
/// whether or not that application changed anything. The sums are exact,
/// however many applications there are, and each mean is rounded once.
///
/// Fails with `EmptyDataset` when there are no rows, and otherwise with
/// `ShapeMismatch` when the number of labels is not the number of rows or
/// some row does not have the dimension of the first.
///
/// The arithmetic is that of [`Fixed`]: every product is rounded to the
/// nearest billionth, and a sum or product outside the range from
/// -9223372036.854775808 to 9223372036.854775807 saturates at the nearer end
/// of it without an error. Results are those of exact arithmetic, up to the
/// rounding of products, only while no intermediate value leaves the range.
pub fn average_perceptron(feature_matrix: &Vec<Vec<Fixed>>, labels: &[Fixed], t: usize) -> (r:
    Result<(Vec<Fixed>, Fixed), ClassifierError>)
    requires
        t >= 1,
    ensures
        match r {
            Ok(mean) => {
                &&& training_error(feature_matrix.deep_view(), labels.deep_view()) is None
                &&& mean.deep_view() == averaged(
                    feature_matrix.deep_view(),
                    labels.deep_view(),
                    (t * feature_matrix@.len()) as nat,
                )
                &&& mean.0@.len() == dimension(feature_matrix.deep_view())
                &&& mean.1@ == round_div(
                    offset_sum(
                        feature_matrix.deep_view(),
                        labels.deep_view(),
                        (t * feature_matrix@.len()) as nat,
                    ),
                    t * feature_matrix@.len(),
                )
            },
            Err(e) => training_error(feature_matrix.deep_view(), labels.deep_view()) == Some(e),
        },
{
    let n: usize = feature_matrix.len();
    let d: usize = match training_dimension(feature_matrix, labels) {
        Err(e) => {
            return Err(e);
        },
        Ok(d) => d,
    };
    let ghost xs = feature_matrix.deep_view();
    let ghost ys = labels.deep_view();
    assert(1 <= t * n <= 0xffff_ffff_ffff_ffff * 0xffff_ffff_ffff_ffff) by (nonlinear_arith)
        requires
            1 <= t <= 0xffff_ffff_ffff_ffff,
            1 <= n <= 0xffff_ffff_ffff_ffff,
    ;
    let count: u128 = (t as u128) * (n as u128);
    let mut theta: Vec<Fixed> = zero_vector(d);
    let mut theta_0: Fixed = Fixed::zero();
    let mut theta_sum: Vec<Tally> = zero_tallies(d, count);
    let mut theta_0_sum: Tally = tally_zero(count);
    let ghost mut k: nat = 0;
    let mut epoch: usize = 0;
    assert(0 * i64::MIN == 0 && 0 * i64::MAX == 0);
    while epoch < t
        invariant
            n == feature_matrix@.len(),
            n == labels@.len(),
            n > 0,
            count == t * n,
            count >= 1,
            xs == feature_matrix.deep_view(),
            ys == labels.deep_view(),
            d == dimension(xs),
            well_shaped(xs, ys, d as nat),
            epoch <= t,
            k == epoch * n,
            k <= count,
            theta@.len() == d,
            theta_sum@.len() == d,
            (theta.deep_view(), theta_0@) == perceptron_after(xs, ys, k),
            theta_0_sum.wf(count as int),
            theta_0_sum.total(count as int) == offset_sum(xs, ys, k),
            k * i64::MIN <= offset_sum(xs, ys, k) <= k * i64::MAX,
            forall|j: int|
                0 <= j < d ==> (#[trigger] theta_sum@[j]).wf(count as int) && theta_sum@[j].total(
                    count as int,
                ) == weight_sum(xs, ys, k, j),
            forall|j: int|
                0 <= j < d ==> k * i64::MIN <= #[trigger] weight_sum(xs, ys, k, j) <= k * i64::MAX,
        decreases t - epoch,
    {
        proof {
            assert((epoch + 1) * n <= t * n) by (nonlinear_arith)
                requires
                    epoch + 1 <= t,
                    0 <= n,
            ;
            lemma_step_row(epoch as int, n as int, 0);
        }
        let mut i: usize = 0;
        while i < n
            invariant
                n == feature_matrix@.len(),
                n == labels@.len(),
                count >= 1,
                xs == feature_matrix.deep_view(),
                ys == labels.deep_view(),
                d == dimension(xs),
                well_shaped(xs, ys, d as nat),
                i <= n,
                k == epoch * n + i,
                epoch * n + n <= count,
                theta@.len() == d,
                theta_sum@.len() == d,
                (theta.deep_view(), theta_0@) == perceptron_after(xs, ys, k),
                theta_0_sum.wf(count as int),
                theta_0_sum.total(count as int) == offset_sum(xs, ys, k),
                k * i64::MIN <= offset_sum(xs, ys, k) <= k * i64::MAX,
                forall|j: int|
                    0 <= j < d ==> (#[trigger] theta_sum@[j]).wf(count as int)
                        && theta_sum@[j].total(count as int) == weight_sum(xs, ys, k, j),
                forall|j: int|
                    0 <= j < d ==> k * i64::MIN <= #[trigger] weight_sum(xs, ys, k, j) <= k
                        * i64::MAX,
            decreases n - i,
        {
            proof {
                lemma_step_row(epoch as int, n as int, i as int);
                assert(xs[i as int].len() == d);
                assert(feature_matrix@[i as int].deep_view() == xs[i as int]);
                assert(k * i64::MIN >= (count - 1) * i64::MIN && k * i64::MAX <= (count - 1)
                    * i64::MAX) by (nonlinear_arith)
                    requires
                        0 <= k <= count - 1,
                ;
                assert forall|j: int| 0 <= j < d implies (count - 1) * i64::MIN <= (
                #[trigger] theta_sum@[j]).total(count as int) <= (count - 1) * i64::MAX by {
                    assert(theta_sum@[j].total(count as int) == weight_sum(xs, ys, k, j));
                }
            }
            let next = perceptron_update(
                feature_matrix[i].as_slice(),
                labels[i],
                theta.as_slice(),
                theta_0,
            );
            theta = next.0;
            theta_0 = next.1;
            let ghost before = theta_sum@;
            accumulate(&mut theta_sum, &theta, count);
            theta_0_sum = tally_add(theta_0_sum, theta_0.raw, count);
            proof {
                let prior = k;
                k = k + 1;
                assert(prior * i64::MIN + i64::MIN == k * i64::MIN && prior * i64::MAX + i64::MAX
                    == k * i64::MAX) by (nonlinear_arith)
                    requires
                        k == prior + 1,
                ;
                assert forall|j: int| 0 <= j < d implies (#[trigger] theta_sum@[j]).wf(
                    count as int,
                ) && theta_sum@[j].total(count as int) == weight_sum(xs, ys, k, j) by {
                    assert(theta_sum@[j].total(count as int) == before[j].total(count as int)
                        + theta@[j]@);
                    assert(theta.deep_view()[j] == theta@[j]@);
                }
                assert forall|j: int| 0 <= j < d implies k * i64::MIN <= #[trigger] weight_sum(
                    xs,
                    ys,
                    k,
                    j,
                ) <= k * i64::MAX by {
                    assert(theta.deep_view()[j] == theta@[j]@);
                    assert(prior * i64::MIN <= weight_sum(xs, ys, prior, j) <= prior * i64::MAX);
                }
            }
            i = i + 1;
        }
        epoch = epoch + 1;
    }
    assert(k == count);
    let mut mean: Vec<Fixed> = Vec::with_capacity(d);
    let mut j: usize = 0;
    while j < d
        invariant
            j <= d,
            k == count,
            count >= 1,
            theta_sum@.len() == d,
            mean@.len() == j,
            forall|m: int|
                0 <= m < d ==> (#[trigger] theta_sum@[m]).wf(count as int) && theta_sum@[m].total(
                    count as int,
                ) == weight_sum(xs, ys, k, m),
            forall|m: int|
                0 <= m < d ==> k * i64::MIN <= #[trigger] weight_sum(xs, ys, k, m) <= k * i64::MAX,
            forall|m: int|
                0 <= m < j ==> (#[trigger] mean@[m])@ == round_div(
                    weight_sum(xs, ys, k, m),
                    k as int,
                ),
        decreases d - j,
    {
        assert(theta_sum@[j as int].total(count as int) == weight_sum(xs, ys, k, j as int));
        let q: i64 = tally_mean(theta_sum[j], count);
        mean.push(Fixed { raw: q });
        j = j + 1;
    }
    let mean_0: Fixed = Fixed { raw: tally_mean(theta_0_sum, count) };
    assert(mean.deep_view() =~= averaged(xs, ys, k).0);
    Ok((mean, mean_0))
}

} // verus!
