use minikanren_1bit_chirho::constraint::{BinaryConstraintChirho, ConstraintStoreChirho, DomainChirho};

#[test]
fn test_domain_basic_chirho() {
    let d_chirho = DomainChirho::range_chirho(10);
    assert_eq!(d_chirho.count_chirho(), 10);
    assert!(d_chirho.contains_chirho(5));
    assert!(!d_chirho.contains_chirho(15));

    let d2_chirho = d_chirho.remove_chirho(5);
    assert!(!d2_chirho.contains_chirho(5));
    assert_eq!(d2_chirho.count_chirho(), 9);
}

#[test]
fn test_domain_singleton_chirho() {
    let d_chirho = DomainChirho::singleton_chirho(7);
    assert!(d_chirho.is_singleton_chirho());
    assert_eq!(d_chirho.get_singleton_chirho(), Some(7));
}

#[test]
fn test_propagate_equality_chirho() {
    let mut store_chirho = ConstraintStoreChirho::new();
    store_chirho.add_var_chirho(0, DomainChirho(0b0111));
    store_chirho.add_var_chirho(1, DomainChirho(0b1110));
    let eq_chirho = BinaryConstraintChirho::equality_chirho(0, 1, 10);
    store_chirho.add_constraint_chirho(eq_chirho);
    assert!(store_chirho.propagate_chirho());
    assert_eq!(store_chirho.domain_chirho(0), DomainChirho(0b0110));
    assert_eq!(store_chirho.domain_chirho(1), DomainChirho(0b0110));
}

#[test]
fn test_propagate_failure_chirho() {
    let mut store_chirho = ConstraintStoreChirho::new();
    store_chirho.add_var_chirho(0, DomainChirho::singleton_chirho(0));
    store_chirho.add_var_chirho(1, DomainChirho::singleton_chirho(1));
    let eq_chirho = BinaryConstraintChirho::equality_chirho(0, 1, 10);
    store_chirho.add_constraint_chirho(eq_chirho);
    assert!(!store_chirho.propagate_chirho());
}

#[test]
fn domain_range_edges() {
    assert_eq!(DomainChirho::range_chirho(0), DomainChirho(0));
    assert_eq!(DomainChirho::range_chirho(64), DomainChirho(u64::MAX));
    assert_eq!(DomainChirho::range_chirho(100), DomainChirho(u64::MAX));
    assert_eq!(DomainChirho::range_chirho(3), DomainChirho(0b111));
}

#[test]
fn domain_set_ops_and_iteration() {
    let a = DomainChirho(0b1011);
    let b = DomainChirho(0b0110);
    assert_eq!(a.intersect_chirho(b), DomainChirho(0b0010));
    assert_eq!(a.union_chirho(b), DomainChirho(0b1111));
    assert_eq!(a.iter_chirho(), vec![0, 1, 3]);
    assert!(DomainChirho::empty_chirho().is_empty_chirho());
    assert!(!DomainChirho::full_chirho().is_empty_chirho());
    assert_eq!(DomainChirho::full_chirho().count_chirho(), 64);
    assert_eq!(a.get_singleton_chirho(), None);
    assert!(!a.contains_chirho(64));
    assert_eq!(a.remove_chirho(70), a);
}

#[test]
fn binary_constraint_tables() {
    let eq = BinaryConstraintChirho::equality_chirho(0, 1, 3);
    assert!(eq.allows_chirho(2, 2));
    assert!(!eq.allows_chirho(1, 2));
    assert!(!eq.allows_chirho(3, 3));
    let ne = BinaryConstraintChirho::not_equal_chirho(0, 1, 3);
    assert!(ne.allows_chirho(1, 2));
    assert!(!ne.allows_chirho(1, 1));
    assert_eq!(ne.allowed_chirho.len(), 6);
    let mut c = BinaryConstraintChirho::new(4, 5);
    c.allow_chirho(1, 2);
    c.allow_chirho(1, 2);
    assert_eq!(c.allowed_chirho.len(), 1);
}

#[test]
fn propagate_not_equal_chain_and_solution() {
    // x = 0, y in {0,1}, z in {0,1,2}; x != y, y != z, x != z
    let mut s = ConstraintStoreChirho::new();
    s.add_var_chirho(0, DomainChirho::singleton_chirho(0));
    s.add_var_chirho(1, DomainChirho(0b011));
    s.add_var_chirho(2, DomainChirho(0b111));
    s.add_constraint_chirho(BinaryConstraintChirho::not_equal_chirho(0, 1, 3));
    s.add_constraint_chirho(BinaryConstraintChirho::not_equal_chirho(1, 2, 3));
    s.add_constraint_chirho(BinaryConstraintChirho::not_equal_chirho(0, 2, 3));
    assert!(s.propagate_chirho());
    assert_eq!(s.domain_chirho(1), DomainChirho(0b010));
    assert_eq!(s.domain_chirho(2), DomainChirho(0b100));
    assert!(s.is_solved_chirho());
    let sol = s.get_solution_chirho().unwrap();
    assert_eq!(sol.get(&0), Some(&0));
    assert_eq!(sol.get(&1), Some(&1));
    assert_eq!(sol.get(&2), Some(&2));
}

#[test]
fn unsolved_store_has_no_solution() {
    let mut s = ConstraintStoreChirho::default();
    assert!(s.is_solved_chirho());
    s.add_var_chirho(3, DomainChirho(0b110));
    assert!(!s.is_solved_chirho());
    assert_eq!(s.get_solution_chirho(), None);
    assert_eq!(s.domain_chirho(9), DomainChirho::full_chirho());
    assert!(!s.set_domain_chirho(3, DomainChirho(0)));
    assert!(s.set_domain_chirho(3, DomainChirho(0b100)));
}
