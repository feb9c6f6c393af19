//! Shape rules for a labelled dataset: a matrix whose rows are feature
//! vectors, and one label per row.

use crate::error::ClassifierError;
use crate::fixed::Fixed;
use vstd::arithmetic::div_mod::lemma_fundamental_div_mod_converse;
use vstd::prelude::*;

verus! {

/// Every row of `xs` has dimension `d`, and there is one label per row.
pub open spec fn well_shaped(xs: Seq<Seq<int>>, ys: Seq<int>, d: nat) -> bool {
    &&& xs.len() == ys.len()
    &&& forall|i: int| 0 <= i < xs.len() ==> (#[trigger] xs[i]).len() == d
}

/// The reason for which a dataset is rejected against dimension `d`, if it
/// is. A dataset without rows is empty, whatever its labels; any other
/// dataset is rejected exactly when it is not well shaped.
pub open spec fn shape_error(xs: Seq<Seq<int>>, ys: Seq<int>, d: nat) -> Option<ClassifierError> {
    if xs.len() == 0 {
        Some(ClassifierError::EmptyDataset)
    } else if !well_shaped(xs, ys, d) {
        Some(ClassifierError::ShapeMismatch)
    } else {
        None
    }
}

/// The dimension that training takes from a dataset: that of its first row.
pub open spec fn dimension(xs: Seq<Seq<int>>) -> nat {
    xs[0].len()
}

/// The reason for which training rejects a dataset, if it does.
pub open spec fn training_error(xs: Seq<Seq<int>>, ys: Seq<int>) -> Option<ClassifierError> {
    shape_error(xs, ys, dimension(xs))
}

/// Row index of the step that follows `epoch` full passes and `i` further
/// rows.
pub proof fn lemma_step_row(epoch: int, n: int, i: int)
    requires
        0 <= epoch,
        0 <= i < n,
    ensures
        (epoch * n + i) % n == i,
        0 <= epoch * n + i,
        epoch * n + n == (epoch + 1) * n,
{
    lemma_fundamental_div_mod_converse(epoch * n + i, n, epoch, i);
    assert(0 <= epoch * n) by (nonlinear_arith)
        requires
            0 <= epoch,
            0 < n,
    ;
    assert(epoch * n + n == (epoch + 1) * n) by (nonlinear_arith);
}

/// Validates a dataset against the dimension `d` before any arithmetic is done.
pub fn validate_shape(feature_matrix: &Vec<Vec<Fixed>>, labels: &[Fixed], d: usize) -> (r: Result<
    (),
    ClassifierError,
>)
    ensures
        match shape_error(feature_matrix.deep_view(), labels.deep_view(), d as nat) {
            Some(e) => r == Err::<(), ClassifierError>(e),
            None => r == Ok::<(), ClassifierError>(()),
        },
{
    let n: usize = feature_matrix.len();
    if n == 0 {
        return Err(ClassifierError::EmptyDataset);
    }
    if labels.len() != n {
        return Err(ClassifierError::ShapeMismatch);
    }
    let mut i: usize = 0;
    while i < n
        invariant
            n == feature_matrix@.len(),
            i <= n,
            forall|j: int| 0 <= j < i ==> (#[trigger] feature_matrix@[j])@.len() == d,
        decreases n - i,
    {
        if feature_matrix[i].len() != d {
            assert(feature_matrix.deep_view()[i as int].len() != d);
            return Err(ClassifierError::ShapeMismatch);
        }
        i = i + 1;
    }
    assert forall|j: int| 0 <= j < feature_matrix.deep_view().len() implies (
    #[trigger] feature_matrix.deep_view()[j]).len() == d by {
        assert(feature_matrix@[j]@.len() == d);
    }
    Ok(())
}

/// Validates a dataset for training and returns the dimension of its rows.
pub fn training_dimension(feature_matrix: &Vec<Vec<Fixed>>, labels: &[Fixed]) -> (r: Result<
    usize,
    ClassifierError,
>)
    ensures
        match r {
            Ok(d) => {
                &&& training_error(feature_matrix.deep_view(), labels.deep_view()) is None
                &&& d == dimension(feature_matrix.deep_view())
                &&& well_shaped(feature_matrix.deep_view(), labels.deep_view(), d as nat)
            },
            Err(e) => training_error(feature_matrix.deep_view(), labels.deep_view()) == Some(e),
        },
{
    let d: usize = if feature_matrix.len() == 0 {
        0
    } else {
        feature_matrix[0].len()
    };
    match validate_shape(feature_matrix, labels, d) {
        Err(e) => Err(e),
        Ok(_) => Ok(d),
    }
}

} // verus!
