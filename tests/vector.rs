use concurrency::{dot_product, dot_product_fits, MatrixError, Vector};

#[test]
fn dot_product_of_equal_lengths() {
    let a = Vector::new(vec![1, 2, 3]);
    let b = Vector::new(vec![4, 5, 6]);
    assert_eq!(dot_product(a, b), Ok(32));
}

#[test]
fn dot_product_of_empty_vectors_is_zero() {
    assert_eq!(dot_product(Vector::new(vec![]), Vector::new(vec![])), Ok(0));
}

#[test]
fn dot_product_of_unequal_lengths_fails() {
    let a = Vector::new(vec![1, 2, 3]);
    let b = Vector::new(vec![1, 2]);
    assert_eq!(dot_product(a, b), Err(MatrixError::DimensionMismatch));
}

#[test]
fn vector_queries() {
    let v = Vector::new(vec![7, -8, 9]);
    assert_eq!(v.len(), 3);
    assert!(!v.is_empty());
    assert_eq!(v.get(1), -8);
    assert_eq!(v.iter().copied().collect::<Vec<_>>(), vec![7, -8, 9]);
    assert_eq!(v.into_vec(), vec![7, -8, 9]);
    assert!(Vector::new(vec![]).is_empty());
}

#[test]
fn overflow_is_detected_before_computing() {
    let big = Vector::new(vec![i64::MAX, 1]);
    let two = Vector::new(vec![2, 1]);
    assert!(!dot_product_fits(&big, &two));
    let sum = Vector::new(vec![i64::MAX, 1]);
    let ones = Vector::new(vec![1, 1]);
    assert!(!dot_product_fits(&sum, &ones));
    let ok = Vector::new(vec![i64::MAX, -1]);
    assert!(dot_product_fits(&ok, &Vector::new(vec![1, 1])));
    assert!(dot_product_fits(&Vector::new(vec![1]), &Vector::new(vec![1, 2])));
}
