use minikanren_1bit_chirho::bitmatrix_packed::{BitMatrix64Chirho, BitMatrixPackedChirho, Word64Chirho};

#[test]
fn test_word64_ops_chirho() {
    let a_chirho = Word64Chirho::new_chirho(0b1010);
    let b_chirho = Word64Chirho::new_chirho(0b1100);
    assert_eq!((a_chirho & b_chirho).0, 0b1000);
    assert_eq!((a_chirho | b_chirho).0, 0b1110);
    assert_eq!(a_chirho.popcount_chirho(), 2);
}

#[test]
fn test_bit_iter_chirho() {
    let w_chirho = Word64Chirho::new_chirho(0b10101);
    let bits_chirho: Vec<u32> = w_chirho.iter_ones_chirho();
    assert_eq!(bits_chirho, vec![0, 2, 4]);
}

#[test]
fn test_matrix64_and_chirho() {
    let mut a_chirho = BitMatrix64Chirho::new_chirho(4, 4);
    let mut b_chirho = BitMatrix64Chirho::new_chirho(4, 4);
    a_chirho.set_chirho(0, 0);
    a_chirho.set_chirho(0, 1);
    b_chirho.set_chirho(0, 1);
    b_chirho.set_chirho(0, 2);
    let c_chirho = a_chirho.and_chirho(&b_chirho);
    assert!(!c_chirho.get_chirho(0, 0));
    assert!(c_chirho.get_chirho(0, 1));
    assert!(!c_chirho.get_chirho(0, 2));
}

#[test]
fn test_matrix64_matmul_chirho() {
    let mut adj_chirho = BitMatrix64Chirho::new_chirho(3, 3);
    adj_chirho.set_chirho(0, 1);
    adj_chirho.set_chirho(1, 2);
    let sq_chirho = adj_chirho.matmul_chirho(&adj_chirho);
    assert!(sq_chirho.get_chirho(0, 2));
    assert!(!sq_chirho.get_chirho(0, 0));
}

#[test]
fn test_transitive_closure_chirho() {
    let mut adj_chirho = BitMatrix64Chirho::new_chirho(4, 4);
    adj_chirho.set_chirho(0, 1);
    adj_chirho.set_chirho(1, 2);
    adj_chirho.set_chirho(2, 3);
    let tc_chirho = adj_chirho.transitive_closure_chirho();
    assert!(tc_chirho.get_chirho(0, 1));
    assert!(tc_chirho.get_chirho(0, 2));
    assert!(tc_chirho.get_chirho(0, 3));
    assert!(!tc_chirho.get_chirho(3, 0));
    assert!(!tc_chirho.get_chirho(3, 1));
    assert!(!tc_chirho.get_chirho(3, 2));
}

#[test]
fn test_occurs_check_via_reachability_chirho() {
    let mut term_graph_chirho = BitMatrix64Chirho::new_chirho(4, 4);
    term_graph_chirho.set_chirho(2, 0);
    term_graph_chirho.set_chirho(2, 1);
    term_graph_chirho.set_chirho(0, 2);
    let tc_chirho = term_graph_chirho.transitive_closure_chirho();
    assert!(tc_chirho.get_chirho(0, 0), "Occurs check: x contains itself!");
}

#[test]
fn test_packed_matrix_chirho() {
    let mut m_chirho = BitMatrixPackedChirho::new_chirho(100, 100);
    m_chirho.set_chirho(50, 50);
    m_chirho.set_chirho(99, 99);
    assert!(m_chirho.get_chirho(50, 50));
    assert!(m_chirho.get_chirho(99, 99));
    assert!(!m_chirho.get_chirho(0, 0));
    assert_eq!(m_chirho.popcount_chirho(), 2);
}

#[test]
fn word64_bits_and_pop() {
    let w = Word64Chirho::new_chirho(0b1001);
    assert_eq!(w.set_bit_chirho(1).0, 0b1011);
    assert_eq!(w.clear_bit_chirho(0).0, 0b1000);
    assert!(w.get_bit_chirho(3));
    assert!(!w.get_bit_chirho(2));
    assert_eq!(w.trailing_zeros_chirho(), 0);
    assert_eq!((w ^ Word64Chirho::new_chirho(0b1)).0, 0b1000);
    assert_eq!((!Word64Chirho::ZERO_CHIRHO()).0, u64::MAX);
    assert_eq!(Word64Chirho::ONES_CHIRHO().popcount_chirho(), 64);
    let mut p = Word64Chirho::new_chirho(0b110);
    assert_eq!(p.pop_lsb_chirho(), Some(1));
    assert_eq!(p.pop_lsb_chirho(), Some(2));
    assert_eq!(p.pop_lsb_chirho(), None);
    assert!(p.is_zero_chirho());
}

#[test]
fn matrix64_identity_transpose_rows() {
    let id = BitMatrix64Chirho::identity_chirho(3);
    assert!(id.get_chirho(1, 1));
    assert!(!id.get_chirho(0, 1));
    assert_eq!(id.popcount_chirho(), 3);
    let mut m = BitMatrix64Chirho::zeros_chirho(2, 3);
    m.set_chirho(0, 2);
    let t = m.transpose_chirho();
    assert_eq!(t.shape_chirho(), (3, 2));
    assert!(t.get_chirho(2, 0));
    assert!(!t.get_chirho(0, 2));
    assert_eq!(m.row_chirho(0).0, 0b100);
    assert_eq!(m.col_chirho(2).0, 0b01);
    assert!(m.any_chirho());
    m.clear_chirho(0, 2);
    assert!(m.is_zero_chirho());
    let o = id.or_chirho(&BitMatrix64Chirho::zeros_chirho(3, 3));
    assert_eq!(o.popcount_chirho(), 3);
}

#[test]
fn packed_matrix_ops() {
    let mut a = BitMatrixPackedChirho::new_chirho(70, 70);
    let mut b = BitMatrixPackedChirho::new_chirho(70, 70);
    a.set_chirho(65, 3);
    a.set_chirho(1, 69);
    b.set_chirho(65, 3);
    assert_eq!(a.and_chirho(&b).popcount_chirho(), 1);
    assert_eq!(a.or_chirho(&b).popcount_chirho(), 2);
    a.clear_chirho(65, 3);
    assert!(!a.get_chirho(65, 3));
    assert_eq!(a.shape_chirho(), (70, 70));
    assert_eq!(BitMatrixPackedChirho::default().shape_chirho(), (64, 64));
}
