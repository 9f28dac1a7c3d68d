use minikanren_1bit_chirho::closure_plan::{closure_rounds_chirho, with_identity_chirho};

#[test]
fn closure_identity_added_chirho() {
    // 3 nodes, one word per row: row i has bit i set afterwards
    let m_chirho = vec![0b010u32, 0b100, 0b000];
    assert_eq!(with_identity_chirho(&m_chirho, 3), vec![0b011, 0b110, 0b100]);
    // 40 nodes: two words per row; the diagonal of row 33 is bit 1 of word 33*2+1
    let m2_chirho = vec![0u32; 80];
    let r2_chirho = with_identity_chirho(&m2_chirho, 40);
    assert_eq!(r2_chirho[0], 1);
    assert_eq!(r2_chirho[67], 1 << 1);
    assert_eq!(r2_chirho[2 * 31], 1 << 31);
    // rows whose word lies outside the matrix are skipped
    assert_eq!(with_identity_chirho(&[0u32, 0], 4), vec![1, 2]);
    assert_eq!(with_identity_chirho(&[], 0), Vec::<u32>::new());
}

#[test]
fn closure_rounds_chirho_values() {
    assert_eq!(closure_rounds_chirho(0), 1);
    assert_eq!(closure_rounds_chirho(1), 2);
    assert_eq!(closure_rounds_chirho(4), 4);
    assert_eq!(closure_rounds_chirho(u32::MAX), 33);
}
