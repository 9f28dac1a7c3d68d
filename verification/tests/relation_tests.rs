use minikanren_1bit_chirho::relation::{DenseRelationChirho, SparseRelationChirho};

#[test]
fn test_sparse_basic_chirho() {
    let mut rel_chirho = SparseRelationChirho::new_chirho("test");
    rel_chirho.add_chirho(0, 1);
    rel_chirho.add_chirho(0, 2);
    assert_eq!(rel_chirho.query_first_chirho(0).len(), 2);
    assert_eq!(rel_chirho.query_second_chirho(1), vec![0]);
}

#[test]
fn test_dense_basic_chirho() {
    let mut rel_chirho = DenseRelationChirho::new_chirho("test", 8);
    rel_chirho.add_chirho(0, 1);
    rel_chirho.add_chirho(0, 2);
    assert!(rel_chirho.contains_chirho(0, 1));
    assert!(rel_chirho.contains_chirho(0, 2));
    assert!(!rel_chirho.contains_chirho(0, 3));
    assert_eq!(rel_chirho.query_first_mask_chirho(0).0, 0b110);
}

#[test]
fn test_dense_compose_chirho() {
    let mut parent_chirho = DenseRelationChirho::new_chirho("parent", 8);
    parent_chirho.add_chirho(0, 2);
    parent_chirho.add_chirho(1, 2);
    parent_chirho.add_chirho(2, 4);
    parent_chirho.add_chirho(3, 4);
    let grandparent_chirho = parent_chirho.compose_chirho(&parent_chirho);
    assert!(grandparent_chirho.contains_chirho(0, 4));
    assert!(grandparent_chirho.contains_chirho(1, 4));
    assert!(!grandparent_chirho.contains_chirho(2, 4));
}

#[test]
fn test_dense_closure_chirho() {
    let mut parent_chirho = DenseRelationChirho::new_chirho("parent", 8);
    parent_chirho.add_chirho(0, 1);
    parent_chirho.add_chirho(1, 2);
    parent_chirho.add_chirho(2, 3);
    let ancestor_chirho = parent_chirho.transitive_closure_chirho();
    assert_eq!(ancestor_chirho.query_first_mask_chirho(0).0, 0b1110);
    let ancestors_chirho = ancestor_chirho.query_second_chirho(3);
    assert_eq!(ancestors_chirho, vec![0, 1, 2]);
}

#[test]
fn test_grandparents_bidirectional_chirho() {
    let mut parent_chirho = DenseRelationChirho::new_chirho("parent", 8);
    parent_chirho.add_chirho(0, 4);
    parent_chirho.add_chirho(1, 4);
    parent_chirho.add_chirho(2, 5);
    parent_chirho.add_chirho(3, 5);
    parent_chirho.add_chirho(4, 6);
    parent_chirho.add_chirho(5, 6);
    let grandparent_chirho = parent_chirho.compose_chirho(&parent_chirho);
    assert_eq!(grandparent_chirho.query_first_chirho(0), vec![6]);
    let bobs_gp_chirho = grandparent_chirho.query_second_chirho(6);
    assert_eq!(bobs_gp_chirho.len(), 4);
}

#[test]
fn dense_names_union_len() {
    let mut a = DenseRelationChirho::new_chirho("a", 4);
    let mut b = DenseRelationChirho::new_chirho("b", 4);
    assert!(a.is_empty_chirho());
    a.add_chirho(0, 1);
    b.add_chirho(1, 2);
    b.add_chirho(0, 1);
    let u = a.union_chirho(&b);
    assert_eq!(u.name_chirho, "(a \u{222a} b)");
    assert_eq!(u.len_chirho(), 2);
    let c = a.compose_chirho(&b);
    assert_eq!(c.name_chirho, "(a \u{2218} b)");
    assert!(c.contains_chirho(0, 2));
    assert_eq!(c.len_chirho(), 1);
    let t = b.transitive_closure_chirho();
    assert_eq!(t.name_chirho, "b*");
    assert!(t.contains_chirho(0, 2));
    assert_eq!(t.len_chirho(), 3);
    assert!(!t.is_empty_chirho());
    assert_eq!(b.query_second_mask_chirho(2).0, 0b10);
}

#[test]
fn sparse_compose_union_closure() {
    let mut r = SparseRelationChirho::new_chirho("r");
    assert!(r.is_empty_chirho());
    r.add_chirho(1, 2);
    r.add_chirho(2, 3);
    r.add_chirho(3, 1);
    r.add_chirho(1, 2);
    assert_eq!(r.len_chirho(), 3);
    let c = r.compose_chirho(&r);
    assert_eq!(c.name_chirho, "(r \u{2218} r)");
    let mut cq = c.query_first_chirho(1);
    cq.sort();
    assert_eq!(cq, vec![3]);
    let u = r.union_chirho(&c);
    assert_eq!(u.len_chirho(), 6);
    let t = r.transitive_closure_chirho();
    assert_eq!(t.name_chirho, "r*");
    assert_eq!(t.len_chirho(), 9);
    let mut q = t.query_second_chirho(1);
    q.sort();
    assert_eq!(q, vec![1, 2, 3]);
}
