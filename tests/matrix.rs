use burn_tensor::element::{Element, ElementPrecision, ElementValue, Precision};
use burn_tensor::matrix::Matrix;

fn mat(rows: Vec<Vec<i64>>) -> Matrix {
    let cols = rows[0].len();
    Matrix::from_rows(rows, cols).unwrap()
}

#[test]
fn matrix_product_values() {
    let a = mat(vec![vec![1, 7], vec![2, 3]]);
    let b = mat(vec![vec![4, 7], vec![2, 3]]);
    assert_eq!(a.matmul(&b).unwrap().data, vec![vec![18, 28], vec![14, 23]]);
    let c = mat(vec![vec![1, 2, 3]]);
    let d = mat(vec![vec![1], vec![0], vec![-1]]);
    let p = c.matmul(&d).unwrap();
    assert_eq!(p.data, vec![vec![-2]]);
    assert_eq!(p.cols, 1);
}

#[test]
fn matrix_sum_and_transpose() {
    let a = mat(vec![vec![1, 2, 3], vec![4, 5, 6]]);
    let b = mat(vec![vec![10, 20, 30], vec![40, 50, 60]]);
    assert_eq!(a.add(&b).unwrap().data, vec![vec![11, 22, 33], vec![44, 55, 66]]);
    let t = a.transpose();
    assert_eq!(t.data, vec![vec![1, 4], vec![2, 5], vec![3, 6]]);
    assert_eq!(t.cols, 2);
}

#[test]
fn matrix_zeros_ones_and_copy() {
    let a = mat(vec![vec![7, 8, 9], vec![1, 2, 3]]);
    assert_eq!(a.zeros().data, vec![vec![0, 0, 0], vec![0, 0, 0]]);
    assert_eq!(a.ones().data, vec![vec![1, 1, 1], vec![1, 1, 1]]);
    assert_eq!(a.copy().data, a.data);
    assert_eq!(Matrix::filled(0, 3, 5).rows(), 0);
}

#[test]
fn ragged_rows_are_refused() {
    assert!(Matrix::from_rows(vec![vec![1, 2], vec![3]], 2).is_none());
    assert!(Matrix::from_rows(vec![], 4).is_some());
}

#[test]
fn matrix_overflow_gives_none() {
    let a = mat(vec![vec![i64::MAX, 1]]);
    let b = mat(vec![vec![1], vec![1]]);
    assert!(a.matmul(&b).is_none());
    assert!(a.add(&a).is_none());
    let c = mat(vec![vec![i64::MIN, 0]]);
    assert_eq!(a.add(&c).unwrap().data, vec![vec![-1, 1]]);
}

#[test]
fn element_precision_and_values() {
    assert_eq!(<i64 as ElementPrecision>::precision(), Precision::Double);
    assert_eq!(<i32 as ElementPrecision>::precision(), Precision::Full);
    assert_eq!(<i16 as ElementPrecision>::precision(), Precision::Half);
    assert_eq!(<i8 as ElementPrecision>::precision(), Precision::Other);
    assert_eq!(<u8 as ElementPrecision>::precision(), Precision::Other);
    assert_eq!(<i32 as ElementValue>::zero(), 0);
    assert_eq!(<u8 as ElementValue>::one(), 1);
    assert_eq!((-5i8).to_i64(), -5);
    assert_eq!(200u8.to_i64(), 200);
}

#[test]
fn matrix_from_elements_of_any_width() {
    let small: Vec<Vec<i8>> = vec![vec![-1, 2], vec![3, -4]];
    let m = Matrix::from_elements(&small, 2).unwrap();
    assert_eq!(m.data, vec![vec![-1, 2], vec![3, -4]]);
    let bytes: Vec<Vec<u8>> = vec![vec![255], vec![0]];
    assert_eq!(Matrix::from_elements(&bytes, 1).unwrap().data, vec![vec![255], vec![0]]);
    let ragged: Vec<Vec<i32>> = vec![vec![1, 2], vec![3]];
    assert!(Matrix::from_elements(&ragged, 2).is_none());
}
