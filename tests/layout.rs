use glao_loop::{LayoutError, Reconstructor, SEGMENTS};
use nalgebra::{DMatrix, DVector};

#[test]
fn new_checks_shapes() {
    assert_eq!(Reconstructor::new(vec![]).err(), Some(LayoutError::NoOperator));
    assert_eq!(Reconstructor::new(vec![(14, 4), (13, 4)]).err(), Some(LayoutError::RowMismatch { index: 1 }));
    assert_eq!(Reconstructor::new(vec![(14, 4), (14, 3), (14, 5)]).err(), Some(LayoutError::OddColumns { index: 1 }));
    // fewer rows than segments is a valid layout
    assert_eq!(Reconstructor::new(vec![(2, 4)]).unwrap().n_rows(), 2);
    let r = Reconstructor::new(vec![(14, 4), (14, 2)]).unwrap();
    assert_eq!(r.n_operators(), 2);
    assert_eq!(r.n_rows(), 14);
    assert_eq!(r.shape(1), (14, 2));
    assert_eq!(SEGMENTS, 7);
}

#[test]
fn split_interleaves_halves_per_operator() {
    // two operators taking 2 and 1 values from each half
    let r = Reconstructor::new(vec![(7, 4), (7, 2)]).unwrap();
    let u: Vec<u32> = vec![10, 11, 12, 20, 21, 22];
    let parts = r.split_input(&u).unwrap();
    assert_eq!(parts, vec![vec![10, 11, 20, 21], vec![12, 22]]);
}

#[test]
fn split_odd_length_input() {
    let r = Reconstructor::new(vec![(7, 2)]).unwrap();
    // the second half starts at len / 2
    let parts = r.split_input(&vec![1, 2, 3]).unwrap();
    assert_eq!(parts, vec![vec![1, 2]]);
}

#[test]
fn split_rejects_short_input() {
    let r = Reconstructor::new(vec![(7, 4), (7, 2)]).unwrap();
    assert_eq!(r.split_input(&vec![1, 2, 3, 4]), Err(LayoutError::InputTooShort));
    assert_eq!(r.split_input(&Vec::<u8>::new()), Err(LayoutError::InputTooShort));
}

#[test]
fn segment_output_prefixes_each_segment_with_zero() {
    let r = Reconstructor::new(vec![(14, 2)]).unwrap();
    let y: Vec<i32> = (1..=14).collect();
    assert_eq!(
        r.segment_output(&y, 0),
        vec![0, 1, 2, 0, 3, 4, 0, 5, 6, 0, 7, 8, 0, 9, 10, 0, 11, 12, 0, 13, 14]
    );
}

#[test]
fn segment_output_with_short_last_segment() {
    // 15 rows: segments of 2, the last one holds a single value
    let r = Reconstructor::new(vec![(15, 2)]).unwrap();
    let y: Vec<i32> = (1..=15).collect();
    let out = r.segment_output(&y, -1);
    assert_eq!(out.len(), 15 + 8);
    assert_eq!(&out[21..], &[-1, 15]);
    assert_eq!(&out[..4], &[-1, 1, 2, -1]);
}

#[test]
fn single_operator_is_a_plain_product() {
    let r = Reconstructor::new(vec![(7, 2)]).unwrap();
    let m = DMatrix::from_row_slice(7, 2, &[1.0, 2.0, 3.0, 4.0, 0.5, -1.0, 0.0, 1.0, 2.0, 2.0, -3.0, 0.25, 1.5, 1.5]);
    let u = vec![3.0, -2.0];
    let parts = r.split_input(&u).unwrap();
    assert_eq!(parts, vec![u.clone()]);
    let y = &m * DVector::from_column_slice(&parts[0]);
    let want: [f64; 7] = [-1.0, 1.0, 3.5, -2.0, 2.0, -9.5, 1.5];
    for (got, w) in y.iter().zip(want.iter()) {
        let diff: f64 = *got - *w;
        assert!(diff.abs() <= 1e-12 * w.abs().max(1.0));
    }
}

#[test]
fn two_by_two_operator_product() {
    // one operator spanning the input receives it unchanged, so the
    // reconstruction is the plain product, here with a known 2x2 matrix
    let m = DMatrix::from_row_slice(2, 2, &[1.0, 2.0, 3.0, 4.0]);
    let r = Reconstructor::new(vec![m.shape()]).unwrap();
    assert_eq!(r.n_rows(), 2);
    let parts = r.split_input(&vec![5.0, 6.0]).unwrap();
    assert_eq!(parts, vec![vec![5.0, 6.0]]);
    let y = m * DVector::from_column_slice(&parts[0]);
    assert_eq!(y.as_slice(), &[17.0, 39.0]);
}
