use minikanren_1bit_chirho::hw_symbolic::{
    mod_lut_chirho, range_bits_chirho, range_mod_hw_chirho, HwSymbolicDomainChirho, SymbolicOpChirho,
};

#[test]
fn test_range_materialize_chirho() {
    let domain_chirho = HwSymbolicDomainChirho::new_chirho(64).with_range_chirho(10, 20);
    let mut domain_mut_chirho = domain_chirho;
    let bits_chirho = domain_mut_chirho.materialize_hw_chirho();
    assert!(!bits_chirho.test_bit_chirho(9));
    assert!(bits_chirho.test_bit_chirho(10));
    assert!(bits_chirho.test_bit_chirho(15));
    assert!(bits_chirho.test_bit_chirho(20));
    assert!(!bits_chirho.test_bit_chirho(21));
}

#[test]
fn test_mod_lut_chirho() {
    let evens_chirho = mod_lut_chirho(0, 2);
    assert!(evens_chirho.test_bit_chirho(0));
    assert!(!evens_chirho.test_bit_chirho(1));
    assert!(evens_chirho.test_bit_chirho(2));
    assert!(evens_chirho.test_bit_chirho(62));
    assert!(!evens_chirho.test_bit_chirho(63));
}

#[test]
fn test_range_mod_combined_chirho() {
    let bits_chirho = range_mod_hw_chirho(0, 20, 0, 5);
    assert!(bits_chirho.test_bit_chirho(0));
    assert!(!bits_chirho.test_bit_chirho(1));
    assert!(bits_chirho.test_bit_chirho(5));
    assert!(bits_chirho.test_bit_chirho(10));
    assert!(bits_chirho.test_bit_chirho(15));
    assert!(bits_chirho.test_bit_chirho(20));
    assert!(!bits_chirho.test_bit_chirho(25));
}

#[test]
fn test_symbolic_intersect_chirho() {
    let a_chirho = HwSymbolicDomainChirho::new_chirho(64).with_range_chirho(0, 30);
    let b_chirho = HwSymbolicDomainChirho::new_chirho(64).with_modular_chirho(0, 7);
    let mut c_chirho = a_chirho.intersect_chirho(&b_chirho);
    let bits_chirho = c_chirho.materialize_hw_chirho();
    assert!(bits_chirho.test_bit_chirho(0));
    assert!(bits_chirho.test_bit_chirho(7));
    assert!(bits_chirho.test_bit_chirho(14));
    assert!(bits_chirho.test_bit_chirho(21));
    assert!(bits_chirho.test_bit_chirho(28));
    assert!(!bits_chirho.test_bit_chirho(35));
    assert_eq!(bits_chirho.popcount_chirho(), 5);
}

#[test]
fn test_hw_cost_chirho() {
    let simple_chirho = HwSymbolicDomainChirho::new_chirho(64).with_range_chirho(0, 10);
    let complex_chirho = HwSymbolicDomainChirho::new_chirho(64)
        .with_range_chirho(0, 50)
        .with_modular_chirho(0, 3)
        .with_not_equal_chirho(15);
    assert!(complex_chirho.hw_cost_chirho() > simple_chirho.hw_cost_chirho());
}

#[test]
fn hw_symbolic_exact_values() {
    assert_eq!(range_bits_chirho(3, 5).0, 0b111000);
    assert_eq!(range_bits_chirho(0, 100).0, u64::MAX);
    assert_eq!(range_bits_chirho(60, 70).0, 0xF000_0000_0000_0000);
    assert_eq!(range_bits_chirho(5, 3).0, 0);
    assert_eq!(range_bits_chirho(64, 80).0, 0);
    assert_eq!(mod_lut_chirho(61, 1).0, 0b111 << 61);
    assert_eq!(mod_lut_chirho(70, 0).0, 0);
    let d = HwSymbolicDomainChirho::new_chirho(64)
        .with_range_chirho(0, 50)
        .with_modular_chirho(7, 3)
        .with_not_equal_chirho(15);
    assert_eq!(d.hw_cost_chirho(), 12 + 4 + 8 + 64 * 3);
    assert_eq!(d.constraints_chirho[1], SymbolicOpChirho::ModularChirho { remainder_chirho: 1, modulus_chirho: 3 });
    assert!(d.contains_hw_chirho(4));
    assert!(!d.contains_hw_chirho(5));
    assert!(!d.contains_hw_chirho(64));
}

#[test]
fn hw_symbolic_intersect_folds_bounds() {
    let a = HwSymbolicDomainChirho::new_chirho(40).with_range_chirho(5, 30).with_not_equal_chirho(9);
    let b = HwSymbolicDomainChirho::new_chirho(20).with_range_chirho(0, 25);
    let mut c = a.intersect_chirho(&b);
    assert_eq!(c.constraints_chirho[0], SymbolicOpChirho::RangeChirho { lo_chirho: 5, hi_chirho: 19 });
    assert_eq!(c.constraints_chirho.len(), 2);
    let bits = c.materialize_hw_chirho();
    assert_eq!(bits.popcount_chirho(), 14);
    let again = c.materialize_hw_chirho();
    assert_eq!(again.0, bits.0);
}
