use minikanren_1bit_chirho::symbolic::{SymbolicConstraintChirho, SymbolicDomainChirho, TypeTagChirho};

#[test]
fn test_range_intersect_chirho() {
    let a_chirho = SymbolicDomainChirho::range_chirho(10, 100);
    let b_chirho = SymbolicDomainChirho::range_chirho(50, 200);
    let c_chirho = a_chirho.intersect_chirho(&b_chirho);
    assert!(c_chirho.contains_chirho(50));
    assert!(c_chirho.contains_chirho(100));
    assert!(!c_chirho.contains_chirho(9));
    assert!(!c_chirho.contains_chirho(101));
}

#[test]
fn test_modular_chirho() {
    let domain_chirho = SymbolicDomainChirho::modular_chirho(2, 5);
    assert!(domain_chirho.contains_chirho(2));
    assert!(domain_chirho.contains_chirho(7));
    assert!(domain_chirho.contains_chirho(12));
    assert!(domain_chirho.contains_chirho(-3));
    assert!(!domain_chirho.contains_chirho(3));
}

#[test]
fn test_chinese_remainder_chirho() {
    let a_chirho = SymbolicDomainChirho::modular_chirho(2, 5);
    let b_chirho = SymbolicDomainChirho::modular_chirho(3, 7);
    let c_chirho = a_chirho.intersect_chirho(&b_chirho);
    assert!(c_chirho.contains_chirho(17));
    assert!(c_chirho.contains_chirho(52));
    assert!(!c_chirho.contains_chirho(2));
    assert!(!c_chirho.contains_chirho(3));
}

#[test]
fn test_enumerate_range_chirho() {
    let domain_chirho = SymbolicDomainChirho::range_chirho(5, 10);
    let bits_chirho = domain_chirho.try_enumerate_chirho(64).unwrap();
    assert!(bits_chirho.test_bit_chirho(5));
    assert!(bits_chirho.test_bit_chirho(10));
    assert!(!bits_chirho.test_bit_chirho(4));
    assert!(!bits_chirho.test_bit_chirho(11));
}

#[test]
fn symbolic_crt_exact_and_conflict() {
    let c = SymbolicDomainChirho::modular_chirho(2, 5).intersect_chirho(&SymbolicDomainChirho::modular_chirho(3, 7));
    match c.constraint_chirho {
        SymbolicConstraintChirho::ModularChirho { remainder_chirho, modulus_chirho } => {
            assert_eq!((remainder_chirho, modulus_chirho), (17, 35));
        }
        _ => panic!("expected a residue"),
    }
    let d = SymbolicDomainChirho::modular_chirho(1, 4).intersect_chirho(&SymbolicDomainChirho::modular_chirho(2, 6));
    assert!(d.is_empty_chirho());
    let e = SymbolicDomainChirho::modular_chirho(1, 4).intersect_chirho(&SymbolicDomainChirho::modular_chirho(3, 6));
    assert!(e.contains_chirho(9));
    assert!(!e.contains_chirho(3));
    assert!(e.contains_chirho(-3));
    assert_eq!(SymbolicDomainChirho::modular_chirho(-1, 5).contains_chirho(4), true);
}

#[test]
fn symbolic_constructors_and_singletons() {
    assert!(SymbolicDomainChirho::range_chirho(5, 4).is_empty_chirho());
    assert_eq!(SymbolicDomainChirho::range_chirho(7, 7).is_singleton_chirho(), Some(7));
    assert_eq!(SymbolicDomainChirho::range_chirho(1, 7).is_singleton_chirho(), None);
    assert!(SymbolicDomainChirho::any_chirho().contains_chirho(i64::MIN));
    assert!(!SymbolicDomainChirho::none_chirho().contains_chirho(0));
    let r = SymbolicDomainChirho::range_chirho(0, 10).intersect_chirho(&SymbolicDomainChirho::range_chirho(10, 20));
    assert_eq!(r.is_singleton_chirho(), Some(10));
    let x = SymbolicDomainChirho::exact_chirho(4).intersect_chirho(&SymbolicDomainChirho::modular_chirho(0, 2));
    assert_eq!(x.is_singleton_chirho(), Some(4));
    let y = SymbolicDomainChirho::exact_chirho(5).intersect_chirho(&SymbolicDomainChirho::modular_chirho(0, 2));
    assert!(y.is_empty_chirho());
}

#[test]
fn symbolic_conjunctions_and_enumeration() {
    let rm = SymbolicDomainChirho::range_chirho(0, 20).intersect_chirho(&SymbolicDomainChirho::modular_chirho(0, 5));
    let bits = rm.try_enumerate_chirho(64).unwrap();
    assert_eq!(bits.0, (1 << 0) | (1 << 5) | (1 << 10) | (1 << 15) | (1 << 20));
    let ne = SymbolicDomainChirho { constraint_chirho: SymbolicConstraintChirho::NotEqualChirho(3) };
    let both = rm.intersect_chirho(&ne);
    assert!(both.contains_chirho(10));
    assert!(!both.contains_chirho(3));
    // The disequality wraps the conjunction in a new one: no range at the top.
    assert!(both.try_enumerate_chirho(64).is_none());
    let tagged = rm.intersect_chirho(&SymbolicDomainChirho { constraint_chirho: SymbolicConstraintChirho::TypeChirho(TypeTagChirho::IntChirho) });
    assert_eq!(tagged.try_enumerate_chirho(1).unwrap().0, bits.0);
    assert!(SymbolicDomainChirho::range_chirho(5, 10).try_enumerate_chirho(3).is_none());
    assert!(SymbolicDomainChirho::modular_chirho(0, 2).try_enumerate_chirho(64).is_none());
    assert_eq!(SymbolicDomainChirho::none_chirho().try_enumerate_chirho(0).unwrap().0, 0);
    assert_eq!(SymbolicDomainChirho::exact_chirho(3).try_enumerate_chirho(0).unwrap().0, 8);
    let t1 = SymbolicDomainChirho { constraint_chirho: SymbolicConstraintChirho::TypeChirho(TypeTagChirho::IntChirho) };
    let t2 = SymbolicDomainChirho { constraint_chirho: SymbolicConstraintChirho::TypeChirho(TypeTagChirho::BoolChirho) };
    assert!(t1.intersect_chirho(&t2).is_empty_chirho());
    let tr = t1.intersect_chirho(&SymbolicDomainChirho::range_chirho(1, 2));
    assert!(tr.contains_chirho(2));
    assert!(!tr.contains_chirho(3));
}

#[test]
fn test_enumerate_full_word_range_chirho() {
    let d_chirho = SymbolicDomainChirho::range_chirho(0, 63);
    assert_eq!(d_chirho.try_enumerate_chirho(64).map(|b| b.0), Some(u64::MAX));
    assert_eq!(d_chirho.try_enumerate_chirho(63).map(|b| b.0), None);
}

#[test]
fn test_inverted_range_is_empty_chirho() {
    let inv_chirho = SymbolicDomainChirho { constraint_chirho: SymbolicConstraintChirho::RangeChirho { lo_chirho: 5, hi_chirho: 3 } };
    assert!(!inv_chirho.contains_chirho(4));
    let wide_chirho = SymbolicDomainChirho::range_chirho(0, 10);
    let both_chirho = inv_chirho.intersect_chirho(&wide_chirho);
    for v in 0..12 {
        assert!(!both_chirho.contains_chirho(v));
    }
    assert_eq!(inv_chirho.try_enumerate_chirho(64).map(|b| b.0), Some(0));
}
