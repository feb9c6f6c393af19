use automatic_review_analyzer::{hinge_loss_full, hinge_loss_single, ClassifierError, Fixed};

fn fixed(v: f64) -> Fixed {
    Fixed::from_raw((v * 1e9).round() as i64)
}

fn fixed_vec(v: &[f64]) -> Vec<Fixed> {
    v.iter().map(|&a| fixed(a)).collect()
}

fn fixed_matrix(m: &[Vec<f64>]) -> Vec<Vec<Fixed>> {
    m.iter().map(|row| fixed_vec(row)).collect()
}

#[test]
fn hinge_single_at_zero_classifier_is_one() {
    let loss = hinge_loss_single(&fixed_vec(&[1., 2.]), fixed(1.), &fixed_vec(&[0., 0.]), fixed(0.));
    assert_eq!(loss, Ok(Fixed::one()));
}

#[test]
fn hinge_single_exact_value() {
    let loss = hinge_loss_single(
        &fixed_vec(&[0.3, -1.2]),
        fixed(-1.),
        &fixed_vec(&[0.5, 0.25]),
        fixed(0.1),
    );
    assert_eq!(loss, Ok(Fixed::from_raw(950_000_000)));
}

#[test]
fn hinge_single_misclassified_point_exceeds_one() {
    let loss = hinge_loss_single(&fixed_vec(&[-1., 0.]), fixed(1.), &fixed_vec(&[1., 1.]), fixed(0.));
    assert_eq!(loss, Ok(Fixed::from_int(2)));
}

#[test]
fn hinge_single_is_zero_from_unit_margin_on() {
    let x = fixed_vec(&[1., 2.]);
    let theta = fixed_vec(&[1., 1.]);
    assert_eq!(hinge_loss_single(&x, fixed(1.), &theta, fixed(0.)), Ok(Fixed::zero()));
    assert_eq!(hinge_loss_single(&x, fixed(1.), &theta, fixed(-2.)), Ok(Fixed::zero()));
    assert_eq!(
        hinge_loss_single(&x, fixed(1.), &theta, fixed(-2.000000001)),
        Ok(Fixed::from_raw(1))
    );
}

#[test]
fn hinge_single_is_never_negative() {
    let xs = [[3.5, -2.25], [-100., 40.], [0., 0.], [1e9, 1e9], [-9e9, 9e9]];
    let thetas = [[0.5, 0.125], [-7., 2.], [0., 0.], [9e9, -9e9]];
    for x in xs.iter() {
        for theta in thetas.iter() {
            for y in [-1., 1., 0., 2.5] {
                for theta_0 in [-3., 0., 9e9] {
                    let loss =
                        hinge_loss_single(&fixed_vec(x), fixed(y), &fixed_vec(theta), fixed(theta_0))
                            .unwrap();
                    assert!(loss.raw() >= 0);
                }
            }
        }
    }
}

#[test]
fn hinge_single_rejects_mismatched_dimensions() {
    let loss = hinge_loss_single(&fixed_vec(&[1., 2., 3.]), fixed(1.), &fixed_vec(&[0., 0.]), fixed(0.));
    assert_eq!(loss, Err(ClassifierError::ShapeMismatch));
    let loss = hinge_loss_single(&fixed_vec(&[]), fixed(1.), &fixed_vec(&[0.]), fixed(0.));
    assert_eq!(loss, Err(ClassifierError::ShapeMismatch));
}

#[test]
fn hinge_single_of_empty_vectors_is_one_minus_offset_agreement() {
    let loss = hinge_loss_single(&[], fixed(1.), &[], fixed(0.25));
    assert_eq!(loss, Ok(Fixed::from_raw(750_000_000)));
}

#[test]
fn hinge_full_is_the_mean_of_the_single_losses() {
    let xs = fixed_matrix(&[vec![1., 2.], vec![-1., 0.]]);
    let ys = fixed_vec(&[1., 1.]);
    assert_eq!(hinge_loss_full(&xs, &ys, &fixed_vec(&[0., 0.]), fixed(0.)), Ok(Fixed::one()));
    assert_eq!(hinge_loss_full(&xs, &ys, &fixed_vec(&[1., 1.]), fixed(0.)), Ok(Fixed::one()));
    assert_eq!(
        hinge_loss_full(&xs, &ys, &fixed_vec(&[1., 1.]), fixed(0.5)),
        Ok(Fixed::from_raw(750_000_000))
    );
}

#[test]
fn hinge_full_is_zero_only_when_no_row_has_loss() {
    let xs = fixed_matrix(&[vec![0.], vec![1.], vec![1.]]);
    let ys = fixed_vec(&[1., 1., 1.]);
    let theta = fixed_vec(&[1.]);
    assert_eq!(
        hinge_loss_full(&xs, &ys, &theta, Fixed::from_raw(999_999_999)),
        Ok(Fixed::from_raw(1))
    );
    assert_eq!(hinge_loss_full(&xs, &ys, &theta, Fixed::one()), Ok(Fixed::zero()));
    let many = vec![vec![Fixed::zero()]; 1000];
    let labels = vec![Fixed::one(); 1000];
    let mut rows = many.clone();
    rows[500] = vec![Fixed::from_raw(-1)];
    assert_eq!(hinge_loss_full(&many, &labels, &theta, Fixed::one()), Ok(Fixed::zero()));
    assert_eq!(hinge_loss_full(&rows, &labels, &theta, Fixed::one()), Ok(Fixed::from_raw(1)));
}

#[test]
fn hinge_full_lies_between_the_least_and_the_greatest_row_loss() {
    let xs = fixed_matrix(&[vec![1., 2.], vec![-1., 0.], vec![0.5, 0.5]]);
    let ys = fixed_vec(&[1., 1., -1.]);
    let theta = fixed_vec(&[0.3, -0.2]);
    let theta_0 = fixed(0.1);
    let mut least = i64::MAX;
    let mut greatest = 0;
    for (x, &y) in xs.iter().zip(ys.iter()) {
        let loss = hinge_loss_single(x, y, &theta, theta_0).unwrap().raw();
        least = least.min(loss);
        greatest = greatest.max(loss);
    }
    let mean = hinge_loss_full(&xs, &ys, &theta, theta_0).unwrap().raw();
    assert!(least < greatest);
    assert!(least <= mean && mean <= greatest);
}

#[test]
fn hinge_full_rounds_the_mean_up_once() {
    let xs = fixed_matrix(&[vec![1., 2.], vec![1., 2.], vec![-1., 0.]]);
    let ys = fixed_vec(&[1., 1., 1.]);
    let theta = fixed_vec(&[1., 1.]);
    assert_eq!(hinge_loss_full(&xs, &ys, &theta, fixed(0.)), Ok(Fixed::from_raw(666_666_667)));
    let ys = fixed_vec(&[1., 1., -1.]);
    assert_eq!(hinge_loss_full(&xs, &ys, &theta, fixed(0.5)), Ok(Fixed::from_raw(166_666_667)));
    let xs = fixed_matrix(&[vec![1., 2.], vec![-1., 0.], vec![-1., 0.]]);
    let ys = fixed_vec(&[1., 1., 1.]);
    assert_eq!(hinge_loss_full(&xs, &ys, &theta, fixed(0.)), Ok(Fixed::from_raw(1_333_333_334)));
}

#[test]
fn hinge_full_agrees_with_hinge_single_row_by_row() {
    let rows = [vec![0.3, -1.2], vec![2.5, 0.75], vec![-0.4, 0.9], vec![1.1, 1.1]];
    let labels = [-1., 1., 1., -1.];
    let theta = fixed_vec(&[0.5, 0.25]);
    let theta_0 = fixed(0.1);
    let mut total: i128 = 0;
    for (row, &label) in rows.iter().zip(labels.iter()) {
        total += hinge_loss_single(&fixed_vec(row), fixed(label), &theta, theta_0).unwrap().raw()
            as i128;
    }
    let mean = (total + 3) / 4;
    let full = hinge_loss_full(&fixed_matrix(&rows), &fixed_vec(&labels), &theta, theta_0).unwrap();
    assert_eq!(full.raw() as i128, mean);
}

#[test]
fn hinge_full_rejects_an_empty_dataset() {
    let xs: Vec<Vec<Fixed>> = Vec::new();
    assert_eq!(
        hinge_loss_full(&xs, &[], &fixed_vec(&[0., 0.]), fixed(0.)),
        Err(ClassifierError::EmptyDataset)
    );
    assert_eq!(
        hinge_loss_full(&xs, &fixed_vec(&[1.]), &fixed_vec(&[0., 0.]), fixed(0.)),
        Err(ClassifierError::EmptyDataset)
    );
}

#[test]
fn hinge_full_rejects_mismatched_shapes() {
    let xs = fixed_matrix(&[vec![1., 2.], vec![-1., 0.]]);
    let theta = fixed_vec(&[0., 0.]);
    assert_eq!(
        hinge_loss_full(&xs, &fixed_vec(&[1.]), &theta, fixed(0.)),
        Err(ClassifierError::ShapeMismatch)
    );
    assert_eq!(
        hinge_loss_full(&xs, &[], &theta, fixed(0.)),
        Err(ClassifierError::ShapeMismatch)
    );
    assert_eq!(
        hinge_loss_full(&xs, &fixed_vec(&[1., 1.]), &fixed_vec(&[0.]), fixed(0.)),
        Err(ClassifierError::ShapeMismatch)
    );
    let ragged = fixed_matrix(&[vec![1., 2.], vec![-1.]]);
    assert_eq!(
        hinge_loss_full(&ragged, &fixed_vec(&[1., 1.]), &theta, fixed(0.)),
        Err(ClassifierError::ShapeMismatch)
    );
}
