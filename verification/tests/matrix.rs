use bit_vec::BitVec;
use enum_spanner::matrix::Matrix;

fn filled(rows: &[&[u8]]) -> Matrix {
    let mut m = Matrix::new(rows.len(), rows[0].len());
    for (i, row) in rows.iter().enumerate() {
        for (j, bit) in row.iter().enumerate() {
            if *bit == 1 {
                m.set(i, j, true);
            }
        }
    }
    m
}

fn entries(m: &Matrix) -> Vec<Vec<u8>> {
    (0..m.height())
        .map(|i| (0..m.width()).map(|j| m.get(i, j) as u8).collect())
        .collect()
}

#[test]
fn new_matrix_is_empty() {
    let m = Matrix::new(2, 3);
    assert_eq!(m.height(), 2);
    assert_eq!(m.width(), 3);
    assert_eq!(entries(&m), vec![vec![0, 0, 0], vec![0, 0, 0]]);
}

#[test]
fn set_then_get() {
    let mut m = Matrix::new(2, 2);
    m.set(0, 1, true);
    assert!(m.get(0, 1));
    assert!(!m.get(1, 0));
    m.set(0, 1, false);
    assert!(!m.get(0, 1));
}

#[test]
fn vector_times_matrix() {
    let m = filled(&[&[1, 0, 0], &[0, 1, 1], &[0, 0, 0]]);
    let mut v = BitVec::from_elem(3, false);
    v.set(1, true);
    let r = m.col_mul(&v);
    assert_eq!(r.len(), 3);
    assert_eq!(r.iter().collect::<Vec<_>>(), vec![false, true, true]);
    v.set(0, true);
    let r = m.col_mul(&v);
    assert_eq!(r.iter().collect::<Vec<_>>(), vec![true, true, true]);
    let none = BitVec::from_elem(3, false);
    assert_eq!(m.col_mul(&none).iter().collect::<Vec<_>>(), vec![false, false, false]);
}

#[test]
fn matrix_product() {
    let a = filled(&[&[1, 1], &[0, 1], &[0, 0]]);
    let b = filled(&[&[0, 1, 0, 0], &[0, 0, 1, 0]]);
    let c = a.mul(&b);
    assert_eq!(c.height(), 3);
    assert_eq!(c.width(), 4);
    assert_eq!(
        entries(&c),
        vec![vec![0, 1, 1, 0], vec![0, 0, 1, 0], vec![0, 0, 0, 0]]
    );
}

#[test]
fn duplicate_is_independent() {
    let a = filled(&[&[1, 0], &[0, 1]]);
    let mut b = a.duplicate();
    b.set(0, 1, true);
    assert_eq!(entries(&a), vec![vec![1, 0], vec![0, 1]]);
    assert_eq!(entries(&b), vec![vec![1, 1], vec![0, 1]]);
}
