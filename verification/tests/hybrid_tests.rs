use std::collections::HashMap;
use minikanren_1bit_chirho::hardware::BitVec64Chirho;
use minikanren_1bit_chirho::hardware_state::SearchStateHwChirho;
use minikanren_1bit_chirho::hybrid::{partition_by_domain_chirho, HybridDomainChirho, HybridStateChirho};
use minikanren_1bit_chirho::paged::PagedDomainChirho;
use minikanren_1bit_chirho::symbolic::{SymbolicDomainChirho, SymbolicConstraintChirho, TypeTagChirho};

#[test]
fn test_hybrid_intersect_chirho() {
    let small_chirho = HybridDomainChirho::Small(BitVec64Chirho(0b11111)); // 0-4
    let sym_chirho = HybridDomainChirho::Symbolic(SymbolicDomainChirho::modular_chirho(0, 2)); // even numbers

    let result_chirho = small_chirho.intersect_chirho(&sym_chirho);

    if let HybridDomainChirho::Small(bits) = result_chirho {
        assert!(bits.test_bit_chirho(0));
        assert!(!bits.test_bit_chirho(1));
        assert!(bits.test_bit_chirho(2));
        assert!(!bits.test_bit_chirho(3));
        assert!(bits.test_bit_chirho(4));
    } else {
        panic!("Expected Small domain");
    }
}

#[test]
fn test_partition_chirho() {
    let mut domains_chirho = HashMap::new();
    domains_chirho.insert(0, HybridDomainChirho::Small(BitVec64Chirho(0xFF)));
    domains_chirho.insert(1, HybridDomainChirho::Infinite);
    domains_chirho.insert(2, HybridDomainChirho::Small(BitVec64Chirho(0xF)));

    let (hw, reference) = partition_by_domain_chirho(&domains_chirho);

    assert_eq!(hw.len(), 2);
    assert_eq!(reference.len(), 1);
}

fn small_bits_chirho(d: &HybridDomainChirho) -> Option<u64> {
    match d {
        HybridDomainChirho::Small(b) => Some(b.0),
        _ => None,
    }
}

#[test]
fn hybrid_small_and_small_chirho() {
    let a = HybridDomainChirho::Small(BitVec64Chirho(0b1100));
    let b = HybridDomainChirho::Small(BitVec64Chirho(0b0110));
    assert_eq!(small_bits_chirho(&a.intersect_chirho(&b)), Some(0b0100));
}

#[test]
fn hybrid_large_and_large_downgrades_chirho() {
    let mut p = PagedDomainChirho::singleton_chirho(3);
    p.insert_chirho(1000);
    let q = PagedDomainChirho::range_chirho(10);
    let r = HybridDomainChirho::Large(p).intersect_chirho(&HybridDomainChirho::Large(q));
    assert_eq!(small_bits_chirho(&r), Some(0b1000));
}

#[test]
fn hybrid_large_stays_large_chirho() {
    let p = PagedDomainChirho::range_chirho(200);
    let q = PagedDomainChirho::range_chirho(100);
    let r = HybridDomainChirho::Large(p).intersect_chirho(&HybridDomainChirho::Large(q));
    match r {
        HybridDomainChirho::Large(x) => {
            assert!(x.contains_chirho(100));
            assert!(!x.contains_chirho(101));
        }
        _ => panic!("expected pages"),
    }
}

#[test]
fn hybrid_small_and_large_chirho() {
    let mut p = PagedDomainChirho::singleton_chirho(2);
    p.insert_chirho(500);
    let s = HybridDomainChirho::Small(BitVec64Chirho(0b0110));
    let r = s.intersect_chirho(&HybridDomainChirho::Large(p));
    assert_eq!(small_bits_chirho(&r), Some(0b0100));
}

#[test]
fn hybrid_large_and_symbolic_chirho() {
    let p = PagedDomainChirho::range_chirho(200);
    let sym = HybridDomainChirho::Symbolic(SymbolicDomainChirho::range_chirho(150, 1000));
    let r = HybridDomainChirho::Large(p).intersect_chirho(&sym);
    match r {
        HybridDomainChirho::Large(x) => {
            assert!(!x.contains_chirho(149));
            assert!(x.contains_chirho(150));
            assert!(x.contains_chirho(200));
            assert_eq!(x.count_chirho(), 51);
        }
        _ => panic!("expected pages"),
    }
}

#[test]
fn hybrid_symbolic_enumerates_chirho() {
    let a = HybridDomainChirho::Symbolic(SymbolicDomainChirho::range_chirho(2, 100));
    let b = HybridDomainChirho::Symbolic(SymbolicDomainChirho::range_chirho(-5, 4));
    let r = a.intersect_chirho(&b);
    assert_eq!(small_bits_chirho(&r), Some(0b11100));
}

#[test]
fn hybrid_symbolic_stays_symbolic_chirho() {
    let a = HybridDomainChirho::Symbolic(SymbolicDomainChirho::range_chirho(100, 1000));
    let b = HybridDomainChirho::Symbolic(SymbolicDomainChirho::range_chirho(500, 2000));
    match a.intersect_chirho(&b) {
        HybridDomainChirho::Symbolic(s) => assert!(matches!(
            s.constraint_chirho,
            SymbolicConstraintChirho::RangeChirho { lo_chirho: 500, hi_chirho: 1000 }
        )),
        _ => panic!("expected symbolic"),
    }
}

#[test]
fn hybrid_clashing_tags_empty_chirho() {
    let a = HybridDomainChirho::Symbolic(SymbolicDomainChirho { constraint_chirho: SymbolicConstraintChirho::TypeChirho(TypeTagChirho::IntChirho) });
    let b = HybridDomainChirho::Symbolic(SymbolicDomainChirho { constraint_chirho: SymbolicConstraintChirho::TypeChirho(TypeTagChirho::BoolChirho) });
    let r = a.intersect_chirho(&b);
    assert_eq!(small_bits_chirho(&r), Some(0));
    assert!(r.is_empty_chirho());
}

#[test]
fn hybrid_infinite_gives_way_chirho() {
    let s = HybridDomainChirho::Small(BitVec64Chirho(0b101));
    assert_eq!(small_bits_chirho(&HybridDomainChirho::Infinite.intersect_chirho(&s)), Some(0b101));
    assert!(matches!(HybridDomainChirho::Infinite.intersect_chirho(&HybridDomainChirho::Infinite), HybridDomainChirho::Infinite));
    assert!(!HybridDomainChirho::Infinite.is_finite_chirho());
    assert!(!HybridDomainChirho::Infinite.is_empty_chirho());
}

#[test]
fn hybrid_try_to_small_chirho() {
    assert_eq!(HybridDomainChirho::Small(BitVec64Chirho(7)).try_to_small_chirho().map(|b| b.0), Some(7));
    assert!(HybridDomainChirho::Infinite.try_to_small_chirho().is_none());
    let sym = HybridDomainChirho::Symbolic(SymbolicDomainChirho::exact_chirho(5));
    assert_eq!(sym.try_to_small_chirho().map(|b| b.0), Some(1 << 5));
    let big = HybridDomainChirho::Large(PagedDomainChirho::singleton_chirho(64));
    assert!(big.try_to_small_chirho().is_none());
}

#[test]
fn hybrid_state_round_trip_chirho() {
    let mut st = HybridStateChirho::new_chirho();
    st.constrain_chirho(0, HybridDomainChirho::Small(BitVec64Chirho(0b1111)));
    st.constrain_chirho(0, HybridDomainChirho::Small(BitVec64Chirho(0b0110)));
    st.constrain_chirho(1, HybridDomainChirho::Infinite);
    assert!(st.is_valid_chirho());
    st.analyze_hw_eligible_chirho();
    assert_eq!(st.hw_eligible_chirho, vec![0]);

    assert!(st.extract_hw_state_chirho::<0>().is_none());
    let hw: SearchStateHwChirho<2> = st.extract_hw_state_chirho::<2>().unwrap();
    assert_eq!(hw.domains_chirho[0].0, 0b0110);
    assert_eq!(hw.domains_chirho[1].0, u64::MAX);

    let mut out = hw;
    out.domains_chirho[0] = BitVec64Chirho(0b0010);
    st.apply_hw_results_chirho(&out);
    assert_eq!(small_bits_chirho(st.domains_chirho.get(&0).unwrap()), Some(0b0010));

    st.constrain_chirho(0, HybridDomainChirho::Small(BitVec64Chirho(0b1000)));
    assert!(!st.is_valid_chirho());
}
