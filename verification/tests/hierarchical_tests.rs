use minikanren_1bit_chirho::hardware::BitVec64Chirho;
use minikanren_1bit_chirho::hierarchical::{
    Hierarchical16kChirho, Hierarchical256kChirho, Hierarchical262kWideChirho,
    Hierarchical4kChirho, Hierarchical65kChirho,
};

#[test]
fn test_hierarchical_4k_basic_chirho() {
    let a_chirho = Hierarchical4kChirho::range_chirho(100);
    assert!(a_chirho.contains_chirho(0));
    assert!(a_chirho.contains_chirho(99));
    assert!(!a_chirho.contains_chirho(100));
    assert_eq!(a_chirho.count_chirho(), 100);
}

#[test]
fn test_hierarchical_4k_intersection_chirho() {
    let a_chirho = Hierarchical4kChirho::range_chirho(1000);
    let b_chirho = Hierarchical4kChirho::range_chirho(500);
    let c_chirho = a_chirho.intersect_chirho(&b_chirho);
    assert_eq!(c_chirho.count_chirho(), 500);
    assert!(c_chirho.contains_chirho(499));
    assert!(!c_chirho.contains_chirho(500));
}

#[test]
fn test_hierarchical_4k_sparse_intersection_chirho() {
    let mut a_chirho = Hierarchical4kChirho::empty_chirho();
    a_chirho.leaves_chirho[0] = BitVec64Chirho::ONES_CHIRHO();
    a_chirho.root_chirho = BitVec64Chirho(1);

    let mut b_chirho = Hierarchical4kChirho::empty_chirho();
    b_chirho.leaves_chirho[10] = BitVec64Chirho::ONES_CHIRHO();
    b_chirho.root_chirho = BitVec64Chirho(1 << 10);

    let c_chirho = a_chirho.intersect_chirho(&b_chirho);
    assert!(c_chirho.is_empty_chirho());
}

#[test]
fn test_hierarchical_4k_iteration_chirho() {
    let domain_chirho = Hierarchical4kChirho::range_chirho(10);
    let values_chirho: Vec<u32> = domain_chirho.iter_chirho();
    assert_eq!(values_chirho, vec![0, 1, 2, 3, 4, 5, 6, 7, 8, 9]);
}

#[test]
fn test_hierarchical_256k_basic_chirho() {
    let a_chirho = Hierarchical256kChirho::range_chirho(1000);
    let b_chirho = Hierarchical256kChirho::range_chirho(500);
    let c_chirho = a_chirho.intersect_chirho(&b_chirho);
    assert!(!c_chirho.is_empty_chirho());
}

#[test]
fn test_hierarchical_16k_basic_chirho() {
    let a_chirho = Hierarchical16kChirho::range_chirho(1000);
    assert!(a_chirho.contains_chirho(0));
    assert!(a_chirho.contains_chirho(999));
    assert!(!a_chirho.contains_chirho(1000));
    assert_eq!(a_chirho.count_chirho(), 1000);
}

#[test]
fn test_hierarchical_16k_intersection_chirho() {
    let a_chirho = Hierarchical16kChirho::range_chirho(5000);
    let b_chirho = Hierarchical16kChirho::range_chirho(3000);
    let c_chirho = a_chirho.intersect_chirho(&b_chirho);
    assert_eq!(c_chirho.count_chirho(), 3000);
    assert!(c_chirho.contains_chirho(2999));
    assert!(!c_chirho.contains_chirho(3000));
}

#[test]
fn test_hierarchical_16k_large_values_chirho() {
    let a_chirho = Hierarchical16kChirho::singleton_chirho(10000);
    assert!(a_chirho.contains_chirho(10000));
    assert!(!a_chirho.contains_chirho(9999));
    assert!(!a_chirho.contains_chirho(10001));
    assert_eq!(a_chirho.count_chirho(), 1);
}

#[test]
fn test_hierarchical_16k_full_capacity_chirho() {
    let a_chirho = Hierarchical16kChirho::range_chirho(16384);
    assert_eq!(a_chirho.count_chirho(), 16384);
    assert!(a_chirho.contains_chirho(0));
    assert!(a_chirho.contains_chirho(16383));
}

#[test]
fn hierarchical_4k_union_singleton_full() {
    let a = Hierarchical4kChirho::singleton_chirho(5);
    let b = Hierarchical4kChirho::singleton_chirho(4000);
    let u = a.union_chirho(&b);
    assert_eq!(u.count_chirho(), 2);
    assert_eq!(u.iter_chirho(), vec![5, 4000]);
    assert!(!u.contains_chirho(4096));
    assert_eq!(Hierarchical4kChirho::full_chirho().count_chirho(), 4096);
    assert_eq!(Hierarchical4kChirho::range_chirho(4096).count_chirho(), 4096);
    assert!(Hierarchical4kChirho::range_chirho(0).is_empty_chirho());
    assert!(a.intersect_chirho(&b).is_empty_chirho());
}

#[test]
fn hierarchical_16k_union_full() {
    let a = Hierarchical16kChirho::singleton_chirho(1);
    let b = Hierarchical16kChirho::singleton_chirho(16383);
    let u = a.union_chirho(&b);
    assert_eq!(u.count_chirho(), 2);
    assert!(u.contains_chirho(16383));
    assert_eq!(Hierarchical16kChirho::full_chirho().count_chirho(), 16384);
    assert!(Hierarchical16kChirho::empty_chirho().is_empty_chirho());
}

#[test]
fn hierarchical_65k_ops() {
    let a = Hierarchical65kChirho::range_chirho(40000);
    let b = Hierarchical65kChirho::singleton_chirho(39999);
    let c = a.intersect_chirho(&b);
    assert_eq!(c.count_chirho(), 1);
    assert!(c.contains_chirho(39999));
    assert!(!c.contains_chirho(40000));
    assert_eq!(a.count_chirho(), 40000);
    assert_eq!(Hierarchical65kChirho::full_chirho().count_chirho(), 65536);
    assert!(Hierarchical65kChirho::empty_chirho().is_empty_chirho());
    assert!(!a.contains_chirho(70000));
}

#[test]
fn hierarchical_262k_wide_ops() {
    let a = Hierarchical262kWideChirho::range_chirho(1000);
    let b = Hierarchical262kWideChirho::singleton_chirho(999);
    let c = a.intersect_chirho(&b);
    assert_eq!(c.count_chirho(), 1);
    assert!(c.contains_chirho(999));
    assert_eq!(a.count_chirho(), 1000);
    assert!(Hierarchical262kWideChirho::empty_chirho().is_empty_chirho());
    let d = Hierarchical262kWideChirho::singleton_chirho(262143);
    assert!(a.intersect_chirho(&d).is_empty_chirho());
}

#[test]
fn hierarchical_256k_disjoint() {
    let a = Hierarchical256kChirho::range_chirho(10);
    let b = Hierarchical256kChirho::empty_chirho();
    assert!(a.intersect_chirho(&b).is_empty_chirho());
    assert!(!a.is_empty_chirho());
}

#[test]
fn hierarchical_4k_range_count_is_n() {
    assert_eq!(Hierarchical4kChirho::range_chirho(0).count_chirho(), 0);
    assert_eq!(Hierarchical4kChirho::range_chirho(100).count_chirho(), 100);
    assert_eq!(Hierarchical4kChirho::range_chirho(4096).count_chirho(), 4096);
    assert_eq!(Hierarchical4kChirho::range_chirho(4150).count_chirho(), 4096);
}

#[test]
fn hierarchical_256k_intersect_emptiness_exact() {
    let a = Hierarchical256kChirho::range_chirho(1000);
    let b = Hierarchical256kChirho::range_chirho(500);
    assert!(!a.intersect_chirho(&b).is_empty_chirho());
    let c = Hierarchical256kChirho::range_chirho(0);
    assert!(a.intersect_chirho(&c).is_empty_chirho());
    assert!(c.is_empty_chirho());
}

#[test]
fn hierarchical_wide_counts_match_values() {
    let a = Hierarchical16kChirho::range_chirho(1000);
    assert_eq!(a.count_chirho(), 1000);
    let b = Hierarchical65kChirho::range_chirho(3000);
    assert_eq!(b.count_chirho(), 3000);
    let c = Hierarchical262kWideChirho::range_chirho(70000);
    assert_eq!(c.count_chirho(), 70000);
}

#[test]
fn hierarchical_4k_range_iter_is_ascending_prefix() {
    let d = Hierarchical4kChirho::range_chirho(130);
    let expected: Vec<u32> = (0..130).collect();
    assert_eq!(d.iter_chirho(), expected);
}
