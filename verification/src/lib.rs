//! Online training rules for linear classifiers: the perceptron, the
//! averaged perceptron and Pegasos, with the hinge loss that scores them.
//!
//! All numbers are decimal fixed-point ([`Fixed`], nine decimals), so every
//! result is an exact, reproducible function of the inputs. Contracts are
//! stated over raw counts of billionths: a number is modelled by an `int`, a
//! vector by a `Seq<int>`, a dataset by a `Seq<Seq<int>>` of rows and a
//! `Seq<int>` of labels.
//!
//! - [`fixed`]: the numbers and their rounded, saturating arithmetic;
//! - [`vector`]: inner product and entrywise operations;
//! - [`dataset`]: the shape that a dataset must have;
//! - [`hinge`]: margin and hinge loss;
//! - [`perceptron`]: the perceptron rule, training, and averaging;
//! - [`pegasos`]: the learning rate, the Pegasos update, and training;
//! - [`tally`]: running totals that cannot overflow, for exact means;
//! - [`decimal`], [`record`]: the text form of numbers and of datasets.

pub mod error;
pub mod dataset;
pub mod decimal;
pub mod fixed;
pub mod hinge;
pub mod pegasos;
pub mod perceptron;
pub mod record;
pub mod tally;
pub mod vector;

pub use error::ClassifierError;
pub use fixed::Fixed;
pub use hinge::{hinge_loss_full, hinge_loss_single};
pub use pegasos::{pegasos, pegasos_single_step_update};
pub use perceptron::{average_perceptron, perceptron, perceptron_single_step_update};
