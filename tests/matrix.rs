use concurrency::{multiply, multiply_with_workers, Matrix, MatrixError, NUM_THREADS};

#[test]
fn test_matrix_multiply() {
    let a = Matrix::new(vec![1, 2, 3, 4, 5, 6], 2, 3);
    let b = Matrix::new(vec![10, 11, 20, 21, 30, 31], 3, 2);
    let c = multiply(&a, &b).unwrap();
    assert_eq!(c.col, 2);
    assert_eq!(c.row, 2);
    assert_eq!(c.data, vec![140, 146, 320, 335]);
    assert_eq!(
        c.to_debug_string(),
        "Matrix(row=2, col=2, {140 146, 320 335})"
    );
}

#[test]
fn test_matrix_display() {
    let a = Matrix::new(vec![1, 2, 3, 4], 2, 2);
    let b = Matrix::new(vec![1, 2, 3, 4], 2, 2);
    let c = multiply(&a, &b).unwrap();
    assert_eq!(c.data, vec![7, 10, 15, 22]);
    assert_eq!(c.to_display_string(), "{7 10, 15 22}");
}

#[test]
fn test_a_can_not_multiply_b() {
    let a = Matrix::new(vec![1, 2, 3, 4, 5, 6], 2, 3);
    let b = Matrix::new(vec![1, 2, 3, 4], 2, 2);
    let c = multiply(&a, &b);
    assert!(c.is_err());
}

#[test]
fn mismatch_is_dimension_error() {
    let a = Matrix::new(vec![1, 2, 3, 4, 5, 6], 2, 3);
    let b = Matrix::new(vec![1, 2, 3, 4], 2, 2);
    assert_eq!(multiply(&a, &b).err(), Some(MatrixError::DimensionMismatch));
}

fn reference_product(a: &Matrix, b: &Matrix) -> Vec<i64> {
    let mut out = vec![0i64; a.row * b.col];
    for i in 0..a.row {
        for j in 0..b.col {
            let mut s = 0i64;
            for k in 0..a.col {
                s += a.data[i * a.col + k] * b.data[k * b.col + j];
            }
            out[i * b.col + j] = s;
        }
    }
    out
}

fn pseudo_random(n: usize, seed: u64) -> Vec<i64> {
    let mut x = seed;
    let mut v = Vec::with_capacity(n);
    for _ in 0..n {
        x = x.wrapping_mul(6364136223846793005).wrapping_add(1442695040888963407);
        v.push(((x >> 33) % 201) as i64 - 100);
    }
    v
}

#[test]
fn product_matches_triple_loop() {
    for &(r, k, c) in &[(1, 1, 1), (3, 5, 4), (7, 2, 9), (50, 50, 50)] {
        let a = Matrix::new(pseudo_random(r * k, 7 + r as u64), r, k);
        let b = Matrix::new(pseudo_random(k * c, 11 + c as u64), k, c);
        let m = multiply(&a, &b).unwrap();
        assert_eq!(m.row, r);
        assert_eq!(m.col, c);
        assert_eq!(m.data, reference_product(&a, &b));
    }
}

#[test]
fn repeated_multiply_is_identical() {
    let a = Matrix::new(pseudo_random(12 * 8, 3), 12, 8);
    let b = Matrix::new(pseudo_random(8 * 10, 5), 8, 10);
    let first = multiply(&a, &b).unwrap();
    for _ in 0..5 {
        let again = multiply(&a, &b).unwrap();
        assert_eq!(again.data, first.data);
        assert_eq!(again.to_debug_string(), first.to_debug_string());
    }
}

#[test]
fn inner_dimension_zero_gives_zeros() {
    let a = Matrix::new(vec![], 2, 0);
    let b = Matrix::new(vec![], 0, 3);
    let m = multiply(&a, &b).unwrap();
    assert_eq!(m.data, vec![0; 6]);
    assert_eq!(m.to_display_string(), "{0 0 0, 0 0 0}");
}

#[test]
fn display_negative_and_extreme_values() {
    let m = Matrix::new(vec![-5, 0, i64::MAX, i64::MIN], 2, 2);
    assert_eq!(
        m.to_display_string(),
        "{-5 0, 9223372036854775807 -9223372036854775808}"
    );
}

#[test]
fn display_shapes() {
    assert_eq!(Matrix::new(vec![1, 2, 3, 4, 5, 6], 2, 3).to_display_string(), "{1 2 3, 4 5 6}");
    assert_eq!(Matrix::new(vec![1, 2, 3, 4, 5, 6], 3, 2).to_display_string(), "{1 2, 3 4, 5 6}");
    assert_eq!(Matrix::new(vec![], 0, 4).to_display_string(), "{}");
    assert_eq!(Matrix::new(vec![42], 1, 1).to_debug_string(), "Matrix(row=1, col=1, {42})");
}

#[test]
fn row_and_column_copies() {
    let m = Matrix::new(vec![1, 2, 3, 4, 5, 6], 2, 3);
    assert_eq!(m.row_vector(1).into_vec(), vec![4, 5, 6]);
    assert_eq!(m.col_vector(2).into_vec(), vec![3, 6]);
}

#[test]
fn product_is_invariant_under_pool_size() {
    let a = Matrix::new(pseudo_random(50 * 50, 17), 50, 50);
    let b = Matrix::new(pseudo_random(50 * 50, 19), 50, 50);
    let expected = reference_product(&a, &b);
    for &workers in &[1, 2, 3, 4, 8, 64] {
        let m = multiply_with_workers(&a, &b, workers).unwrap();
        assert_eq!(m.row, 50);
        assert_eq!(m.col, 50);
        assert_eq!(m.data, expected);
    }
    assert_eq!(NUM_THREADS, 4);
}

#[test]
fn pool_rejects_mismatch_for_any_size() {
    let a = Matrix::new(vec![1, 2, 3, 4, 5, 6], 2, 3);
    let b = Matrix::new(vec![1, 2, 3, 4], 2, 2);
    for &workers in &[1, 4, 8] {
        assert_eq!(
            multiply_with_workers(&a, &b, workers).err(),
            Some(MatrixError::DimensionMismatch)
        );
    }
}

#[test]
fn more_workers_than_cells() {
    let a = Matrix::new(vec![2], 1, 1);
    let b = Matrix::new(vec![3, -4], 1, 2);
    let m = multiply_with_workers(&a, &b, 8).unwrap();
    assert_eq!(m.data, vec![6, -8]);
    assert_eq!(m.to_debug_string(), "Matrix(row=1, col=2, {6 -8})");
}
