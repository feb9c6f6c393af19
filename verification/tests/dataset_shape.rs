use automatic_review_analyzer::dataset::{training_dimension, validate_shape};
use automatic_review_analyzer::{ClassifierError, Fixed};

fn rows(lens: &[usize]) -> Vec<Vec<Fixed>> {
    lens.iter().map(|&n| vec![Fixed::one(); n]).collect()
}

fn labels(n: usize) -> Vec<Fixed> {
    vec![Fixed::one(); n]
}

#[test]
fn validate_shape_accepts_a_rectangular_dataset() {
    assert_eq!(validate_shape(&rows(&[2, 2, 2]), &labels(3), 2), Ok(()));
    assert_eq!(validate_shape(&rows(&[0]), &labels(1), 0), Ok(()));
    assert_eq!(validate_shape(&rows(&[5]), &labels(1), 5), Ok(()));
}

#[test]
fn validate_shape_reports_an_empty_dataset_first() {
    assert_eq!(validate_shape(&rows(&[]), &labels(0), 2), Err(ClassifierError::EmptyDataset));
    assert_eq!(validate_shape(&rows(&[]), &labels(4), 2), Err(ClassifierError::EmptyDataset));
    assert_eq!(validate_shape(&rows(&[]), &labels(0), 0), Err(ClassifierError::EmptyDataset));
}

#[test]
fn validate_shape_reports_every_other_mismatch() {
    assert_eq!(validate_shape(&rows(&[2, 2]), &labels(3), 2), Err(ClassifierError::ShapeMismatch));
    assert_eq!(validate_shape(&rows(&[2, 2]), &labels(0), 2), Err(ClassifierError::ShapeMismatch));
    assert_eq!(validate_shape(&rows(&[2, 2]), &labels(2), 3), Err(ClassifierError::ShapeMismatch));
    assert_eq!(validate_shape(&rows(&[2, 3]), &labels(2), 2), Err(ClassifierError::ShapeMismatch));
    assert_eq!(validate_shape(&rows(&[3, 2]), &labels(2), 2), Err(ClassifierError::ShapeMismatch));
    assert_eq!(validate_shape(&rows(&[2, 2, 1]), &labels(3), 2), Err(ClassifierError::ShapeMismatch));
}

#[test]
fn training_dimension_is_that_of_the_first_row() {
    assert_eq!(training_dimension(&rows(&[2, 2, 2]), &labels(3)), Ok(2));
    assert_eq!(training_dimension(&rows(&[7]), &labels(1)), Ok(7));
    assert_eq!(training_dimension(&rows(&[0, 0]), &labels(2)), Ok(0));
}

#[test]
fn training_dimension_rejects_what_training_rejects() {
    assert_eq!(training_dimension(&rows(&[]), &labels(0)), Err(ClassifierError::EmptyDataset));
    assert_eq!(training_dimension(&rows(&[]), &labels(2)), Err(ClassifierError::EmptyDataset));
    assert_eq!(training_dimension(&rows(&[2, 3]), &labels(2)), Err(ClassifierError::ShapeMismatch));
    assert_eq!(training_dimension(&rows(&[2, 2]), &labels(1)), Err(ClassifierError::ShapeMismatch));
}
