use neonate::tensor::{shape_numel, Array};

#[test]
fn transpose_roundtrip() {
    let a = Array::from_vec(&[2, 3], vec![1., 2., 3., 4., 5., 6.]);
    assert_eq!(a.transpose().transpose(), a);
}

#[test]
fn transpose_moves_entries() {
    let a = Array::from_vec(&[2, 3], vec![1, 2, 3, 4, 5, 6]);
    let t = a.transpose();
    assert_eq!(t.shape, vec![3, 2]);
    assert_eq!(t.data, vec![1, 4, 2, 5, 3, 6]);
    assert_eq!(t.rows(), 3);
    assert_eq!(t.cols(), 2);
}

#[test]
fn zeros_fill_the_shape() {
    let z = Array::zeros(&[2, 3, 4], 0.0f32);
    assert_eq!(z.shape, vec![2, 3, 4]);
    assert_eq!(z.numel(), 24);
    assert!(z.data.iter().all(|&x| x == 0.0));
    assert_eq!(shape_numel(&[]), 1);
    assert_eq!(shape_numel(&[5, 0, 7]), 0);
}

#[test]
fn map_keeps_shape() {
    let a = Array::from_vec(&[2, 2], vec![-1.0f32, 2.0, -3.0, 4.0]);
    let r = a.map(|x: f32| x.max(0.0));
    assert_eq!(r.shape, vec![2, 2]);
    assert_eq!(r.data, vec![0.0, 2.0, 0.0, 4.0]);
}

#[test]
fn zip_map_combines_pairwise() {
    let a = Array::from_vec(&[3], vec![1, 2, 3]);
    let b = Array::from_vec(&[3], vec![10, 20, 30]);
    let s = a.zip_map(&b, |x: i32, y: i32| x + y);
    assert_eq!(s.data, vec![11, 22, 33]);
    let d = b.zip_map(&a, |x: i32, y: i32| x - y);
    assert_eq!(d.data, vec![9, 18, 27]);
}

#[test]
fn bias_is_added_to_every_row() {
    let a = Array::from_vec(&[2, 2], vec![1., 2., 3., 4.]);
    let b = Array::from_vec(&[2], vec![10., 20.]);
    let c = a.broadcast_rows(&b, |x: f32, y: f32| x + y);
    assert_eq!(c.data, vec![11., 22., 13., 24.]);
    assert_eq!(c.shape, vec![2, 2]);
}

fn times(x: f32, y: f32) -> f32 {
    x * y
}

fn plus(x: f32, y: f32) -> f32 {
    x + y
}

#[test]
fn matmul_known() {
    let a = Array::from_vec(&[2, 3], vec![1., 2., 3., 4., 5., 6.]);
    let b = Array::from_vec(&[3, 2], vec![7., 8., 9., 10., 11., 12.]);
    let c = a.matmul_with(&b, 0.0, times, plus);
    assert_eq!(c.data, vec![58., 64., 139., 154.]);
}

#[test]
fn bias_and_sum_rows() {
    let a = Array::from_vec(&[2, 2], vec![1., 2., 3., 4.]);
    let b = Array::from_vec(&[2], vec![10., 20.]);
    let c = a.broadcast_rows(&b, plus);
    assert_eq!(c.data, vec![11., 22., 13., 24.]);
    assert_eq!(c.sum_rows_with(0.0, plus).data, vec![24., 46.]);
}

#[test]
fn matmul_shape_and_order() {
    let a = Array::from_vec(&[1, 2], vec![2i64, 3]);
    let b = Array::from_vec(&[2, 3], vec![1i64, 0, -1, 4, 5, 6]);
    let c = a.matmul_with(&b, 0, |x: i64, y: i64| x * y, |x: i64, y: i64| x + y);
    assert_eq!(c.shape, vec![1, 3]);
    assert_eq!(c.data, vec![14, 15, 16]);
    // The fold runs from `zero` through the products in order of the inner index.
    let trace = a.matmul_with(&b, 100, |x: i64, y: i64| x * y, |acc: i64, p: i64| acc * 10 + p);
    assert_eq!(trace.data, vec![(100 * 10 + 2) * 10 + 12, (100 * 10 + 0) * 10 + 15, (100 * 10 - 2) * 10 + 18]);
}

#[test]
fn sum_rows_ignores_partial_rows() {
    let a = Array { shape: vec![2, 3], data: vec![1, 2, 3, 4, 5, 6, 7] };
    assert_eq!(a.sum_rows_with(0, |x: i32, y: i32| x + y).data, vec![5, 7, 9]);
}
