use minikanren_1bit_chirho::bitmatrix::{BitMatrixChirho, BitTensor3Chirho};
use std::collections::HashSet;

#[test]
fn test_bitmatrix_basic_chirho() {
    let mut m_chirho = BitMatrixChirho::new(10, 10);
    m_chirho.set_chirho(0, 0);
    m_chirho.set_chirho(0, 1);
    m_chirho.set_chirho(1, 1);
    assert!(m_chirho.get_chirho(0, 0));
    assert!(m_chirho.get_chirho(0, 1));
    assert!(!m_chirho.get_chirho(0, 2));
    assert_eq!(m_chirho.nnz_chirho(), 3);
}

#[test]
fn test_bitmatrix_and_chirho() {
    let mut a_chirho = BitMatrixChirho::new(10, 10);
    let mut b_chirho = BitMatrixChirho::new(10, 10);
    a_chirho.set_chirho(0, 0);
    a_chirho.set_chirho(0, 1);
    b_chirho.set_chirho(0, 1);
    b_chirho.set_chirho(0, 2);
    let c_chirho = a_chirho.and_chirho(&b_chirho);
    assert!(!c_chirho.get_chirho(0, 0));
    assert!(c_chirho.get_chirho(0, 1));
    assert!(!c_chirho.get_chirho(0, 2));
}

#[test]
fn test_tensor3_chirho() {
    let mut t_chirho = BitTensor3Chirho::new();
    t_chirho.set_chirho(1, 2, 3);
    t_chirho.set_chirho(0, 3, 3);
    assert!(t_chirho.get_chirho(1, 2, 3));
    assert!(!t_chirho.get_chirho(1, 1, 1));
}

#[test]
fn bitmatrix_growth_rows_cols_clear() {
    let mut m = BitMatrixChirho::default();
    assert_eq!(m.shape_chirho(), (0, 0));
    m.set_chirho(4, 7);
    assert_eq!(m.shape_chirho(), (5, 8));
    m.set_chirho(4, 2);
    m.set_chirho(1, 2);
    m.set_chirho(1, 2);
    assert_eq!(m.nnz_chirho(), 3);
    let mut row = m.row_chirho(4);
    row.sort();
    assert_eq!(row, vec![2, 7]);
    let mut col = m.col_chirho(2);
    col.sort();
    assert_eq!(col, vec![1, 4]);
    m.clear_chirho(4, 7);
    assert!(!m.get_chirho(4, 7));
    assert_eq!(m.shape_chirho(), (5, 8));
    assert_eq!(m.iter_chirho().len(), 2);
}

#[test]
fn bitmatrix_or_matmul_transpose() {
    let mut a = BitMatrixChirho::new(3, 3);
    a.set_chirho(0, 1);
    a.set_chirho(1, 2);
    let mut b = BitMatrixChirho::new(4, 2);
    b.set_chirho(3, 0);
    let o = a.or_chirho(&b);
    assert_eq!(o.shape_chirho(), (4, 3));
    assert_eq!(o.nnz_chirho(), 3);
    let sq = a.matmul_chirho(&a);
    assert_eq!(sq.shape_chirho(), (3, 3));
    assert!(sq.get_chirho(0, 2));
    assert_eq!(sq.nnz_chirho(), 1);
    let t = a.transpose_chirho();
    assert!(t.get_chirho(1, 0));
    assert!(!t.get_chirho(0, 1));
}

#[test]
fn tensor3_contract_and_query() {
    let mut t = BitTensor3Chirho::default();
    t.set_chirho(1, 2, 3);
    t.set_chirho(0, 3, 3);
    t.set_chirho(1, 5, 6);
    t.set_chirho(1, 2, 3);
    assert_eq!(t.nnz_chirho(), 3);
    let mut vals = HashSet::new();
    vals.insert(1u32);
    let m = t.contract_chirho(0, &vals);
    assert!(m.get_chirho(2, 3));
    assert!(m.get_chirho(5, 6));
    assert_eq!(m.nnz_chirho(), 2);
    assert_eq!(t.contract_chirho(7, &vals).nnz_chirho(), 0);
    let q = t.query_chirho([(0, 1), (1, 2)]);
    assert_eq!(q, vec![3]);
    let mut q2 = t.query_chirho([(2, 3), (1, 3)]);
    q2.sort();
    assert_eq!(q2, vec![0]);
    assert_eq!(t.iter_chirho().len(), 3);
}
