use poisson_recon::solvers::{dot, square_norm};
use poisson_recon::sparse::{MatrixEntry, SparseMatrix};

#[test]
fn test_sparse_matrix_multiply() {
    let mut m: SparseMatrix<f64> = SparseMatrix::new(3);
    m.set_row_size(0, 2); // row 0: col 0, col 1
    m.set_row_size(1, 1); // row 1: col 1
    m.set_row_size(2, 1); // row 2: col 2
    m.finalize_structure();

    m.row_mut(0)[0] = MatrixEntry::new(0, 2.0);
    m.row_mut(0)[1] = MatrixEntry::new(1, 1.0);
    m.row_mut(1)[0] = MatrixEntry::new(1, 3.0);
    m.row_mut(2)[0] = MatrixEntry::new(2, 4.0);

    let x = vec![1.0, 2.0, 3.0];
    let mut y = vec![0.0; 3];
    m.multiply_vector(&x, &mut y);
    // row 0: 2*1 + 1*2 = 4
    // row 1: 3*2 = 6
    // row 2: 4*3 = 12
    assert!((y[0] - 4.0).abs() < 1e-10);
    assert!((y[1] - 6.0).abs() < 1e-10);
    assert!((y[2] - 12.0).abs() < 1e-10);
}

fn sample() -> SparseMatrix<i64> {
    let mut m: SparseMatrix<i64> = SparseMatrix::with_capacity(3, 4);
    m.set_row_size(0, 2);
    m.set_row_size(1, 1);
    m.set_row_size(2, 1);
    m.finalize_structure();
    m.row_mut(0)[0] = MatrixEntry::new(0, 2);
    m.row_mut(0)[1] = MatrixEntry::new(1, 1);
    m.row_mut(1)[0] = MatrixEntry::new(1, 3);
    m.row_mut(2)[0] = MatrixEntry::new(2, 4);
    m
}

#[test]
fn structure_lays_rows_out_in_order() {
    let m = sample();
    assert_eq!(m.num_rows(), 3);
    assert_eq!(m.nnz(), 4);
    assert_eq!(m.row_size(0), 2);
    assert_eq!(m.row(0), &[MatrixEntry::new(0, 2), MatrixEntry::new(1, 1)][..]);
    assert_eq!(m.row(2), &[MatrixEntry::new(2, 4)][..]);
    let fresh: SparseMatrix<i64> = {
        let mut f = SparseMatrix::new(2);
        f.set_row_size(1, 3);
        f.finalize_structure();
        f
    };
    assert_eq!(fresh.row(0).len(), 0);
    assert_eq!(fresh.row(1), &[MatrixEntry::new(0, 0); 3][..]);
}

#[test]
fn integer_products() {
    let m = sample();
    let mut y = vec![0i64; 3];
    m.multiply_vector(&[1, 2, 3], &mut y);
    assert_eq!(y, vec![4, 6, 12]);
    assert_eq!(m.row_times(0, &[1, 2, 3]), 4);
    let mut t = vec![7i64; 3];
    m.multiply_transpose_vector(&[1, 2, 3], &mut t);
    // column 0: 2*1, column 1: 1*1 + 3*2, column 2: 4*3
    assert_eq!(t, vec![2, 7, 12]);
}

#[test]
fn scaling_and_identity() {
    let mut m = sample();
    m.scale(3);
    assert_eq!(m.row(0), &[MatrixEntry::new(0, 6), MatrixEntry::new(1, 3)][..]);
    let m2 = m * 2;
    assert_eq!(m2.row(2), &[MatrixEntry::new(2, 24)][..]);
    let id: SparseMatrix<i64> = SparseMatrix::identity(4, 1);
    let mut y = vec![0i64; 4];
    id.multiply_vector(&[5, 6, 7, 8], &mut y);
    assert_eq!(y, vec![5, 6, 7, 8]);
    assert_eq!(id.nnz(), 4);
    assert_eq!(id.row(3), &[MatrixEntry::new(3, 1)][..]);
}

#[test]
fn identity_transpose_keeps_vector() {
    let id: SparseMatrix<i64> = SparseMatrix::identity(3, 1);
    let mut y = vec![9i64; 3];
    id.multiply_transpose_vector(&[-2, 0, 11], &mut y);
    assert_eq!(y, vec![-2, 0, 11]);
}

#[test]
fn vector_kernels() {
    assert_eq!(dot(&[1i64, 2, 3], &[4, 5, 6]), 32);
    assert_eq!(dot(&[1i64, 2, 3], &[4]), 4);
    assert_eq!(square_norm(&[3i64, 4]), 25);
    assert_eq!(square_norm::<i64>(&[]), 0);
    assert!((dot(&[0.5f64, 2.0], &[4.0, 0.25]) - 2.5).abs() < 1e-12);
}

#[test]
fn transpose_is_adjoint_on_sample() {
    let m = sample();
    let x = [3i64, -1, 5];
    let y = [2i64, 4, -3];
    let mut ax = vec![0i64; 3];
    m.multiply_vector(&x, &mut ax);
    let mut aty = vec![0i64; 3];
    m.multiply_transpose_vector(&y, &mut aty);
    assert_eq!(ax, vec![5, -3, 20]);
    assert_eq!(aty, vec![4, 14, -12]);
    assert_eq!(dot(&y, &ax), dot(&x, &aty));
    assert_eq!(dot(&y, &ax), -62);
}

#[test]
fn square_norm_is_self_dot_on_integers() {
    let v = [3i64, -4, 12, 0];
    assert_eq!(square_norm(&v), dot(&v, &v));
    assert_eq!(square_norm(&v), 169);
}
