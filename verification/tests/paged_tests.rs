use minikanren_1bit_chirho::paged::PagedDomainChirho;

#[test]
fn test_singleton_chirho() {
    let domain_chirho = PagedDomainChirho::singleton_chirho(100);
    assert!(domain_chirho.contains_chirho(100));
    assert!(!domain_chirho.contains_chirho(99));
    assert!(!domain_chirho.contains_chirho(101));
    assert_eq!(domain_chirho.count_chirho(), 1);
}

#[test]
fn test_range_chirho() {
    let domain_chirho = PagedDomainChirho::range_chirho(100);
    assert!(domain_chirho.contains_chirho(0));
    assert!(domain_chirho.contains_chirho(50));
    assert!(domain_chirho.contains_chirho(100));
    assert!(!domain_chirho.contains_chirho(101));
}

#[test]
fn paged_chirho_test_intersect_chirho() {
    let a_chirho = PagedDomainChirho::range_chirho(100);
    let b_chirho = PagedDomainChirho::range_chirho(50);
    let c_chirho = a_chirho.intersect_chirho(&b_chirho);
    assert!(c_chirho.contains_chirho(50));
    assert!(!c_chirho.contains_chirho(75));
}

#[test]
fn test_large_values_chirho() {
    let mut domain_chirho = PagedDomainChirho::empty_chirho();
    domain_chirho.insert_chirho(1000);
    domain_chirho.insert_chirho(1000000);
    assert!(domain_chirho.contains_chirho(1000));
    assert!(domain_chirho.contains_chirho(1000000));
    assert!(!domain_chirho.contains_chirho(500));
    assert_eq!(domain_chirho.count_chirho(), 2);
}

#[test]
fn paged_range_page_edges() {
    let r64 = PagedDomainChirho::range_chirho(64);
    assert!(r64.contains_chirho(64));
    assert!(!r64.contains_chirho(65));
    assert_eq!(r64.count_chirho(), 65);
    let r63 = PagedDomainChirho::range_chirho(63);
    assert_eq!(r63.count_chirho(), 64);
    assert_eq!(r63.page_count_chirho(), 1);
    assert_eq!(r63.to_bitvec64_chirho().map(|b| b.0), Some(u64::MAX));
    assert_eq!(PagedDomainChirho::range_chirho(0).count_chirho(), 1);
    assert!(r64.to_bitvec64_chirho().is_none());
}

#[test]
fn paged_insert_remove_union_iter() {
    let mut d = PagedDomainChirho::default();
    assert!(d.is_empty_chirho());
    assert_eq!(d.to_bitvec64_chirho().map(|b| b.0), Some(0));
    d.insert_chirho(200);
    d.insert_chirho(3);
    d.insert_chirho(130);
    assert_eq!(d.iter_chirho(), vec![3, 130, 200]);
    assert_eq!(d.page_count_chirho(), 3);
    d.remove_chirho(130);
    assert_eq!(d.page_count_chirho(), 2);
    assert!(!d.contains_chirho(130));
    d.remove_chirho(999);
    let u = d.union_chirho(&PagedDomainChirho::singleton_chirho(4));
    assert_eq!(u.iter_chirho(), vec![3, 4, 200]);
    let i = u.intersect_chirho(&PagedDomainChirho::range_chirho(100));
    assert_eq!(i.iter_chirho(), vec![3, 4]);
    assert_eq!(i.to_bitvec64_chirho().map(|b| b.0), Some(0b11000));
    let mut big = PagedDomainChirho::empty_chirho();
    big.insert_chirho(u64::MAX);
    assert!(big.contains_chirho(u64::MAX));
    assert_eq!(big.count_chirho(), 1);
}
