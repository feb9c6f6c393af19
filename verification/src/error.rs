//! The ways in which a call can be malformed.

use vstd::prelude::*;

verus! {

/// Why an input was rejected. Both kinds are detected before any arithmetic
/// is done, so a rejected call has no partial result.
#[derive(Clone, Copy, Debug, PartialEq, Eq, Structural)]
pub enum ClassifierError {
    /// A feature vector and the parameter vector differ in dimension, rows of
    /// one dataset differ in dimension, or rows and labels differ in number.
    ShapeMismatch,
    /// The dataset has no rows.
    EmptyDataset,
}

} // verus!
