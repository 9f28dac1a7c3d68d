use minikanren_1bit_chirho::complement::ComplementDomainChirho;
use std::collections::HashSet;

#[test]
fn test_disequality_chirho() {
    let domain_chirho = ComplementDomainChirho::all_except_chirho(5);
    assert!(domain_chirho.contains_chirho(0));
    assert!(domain_chirho.contains_chirho(4));
    assert!(!domain_chirho.contains_chirho(5));
    assert!(domain_chirho.contains_chirho(6));
    assert!(domain_chirho.contains_chirho(1000));
}

#[test]
fn test_finite_intersect_cofinite_chirho() {
    let finite_chirho = ComplementDomainChirho::from_set_chirho([1, 2, 3, 4, 5].into_iter().collect());
    let cofinite_chirho = ComplementDomainChirho::all_except_chirho(3);
    let result_chirho = finite_chirho.intersect_chirho(&cofinite_chirho);
    assert!(result_chirho.contains_chirho(1));
    assert!(result_chirho.contains_chirho(2));
    assert!(!result_chirho.contains_chirho(3));
    assert!(result_chirho.contains_chirho(4));
    assert!(result_chirho.contains_chirho(5));
    assert!(!result_chirho.contains_chirho(6));
}

#[test]
fn test_multiple_disequalities_chirho() {
    let a_chirho = ComplementDomainChirho::all_except_chirho(1);
    let b_chirho = ComplementDomainChirho::all_except_chirho(2);
    let result_chirho = a_chirho.intersect_chirho(&b_chirho);
    assert!(!result_chirho.contains_chirho(1));
    assert!(!result_chirho.contains_chirho(2));
    assert!(result_chirho.contains_chirho(0));
    assert!(result_chirho.contains_chirho(3));
}

#[test]
fn test_complement_chirho() {
    let finite_chirho = ComplementDomainChirho::from_set_chirho([1, 2, 3].into_iter().collect());
    let complement_chirho = finite_chirho.complement_chirho();
    assert!(!complement_chirho.contains_chirho(1));
    assert!(!complement_chirho.contains_chirho(2));
    assert!(!complement_chirho.contains_chirho(3));
    assert!(complement_chirho.contains_chirho(0));
    assert!(complement_chirho.contains_chirho(100));
}

#[test]
fn complement_forms_and_sizes() {
    assert!(ComplementDomainChirho::from_set_chirho(HashSet::new()).is_empty_chirho());
    let all = ComplementDomainChirho::default();
    assert!(all.is_infinite_chirho());
    assert!(!all.is_finite_chirho());
    assert_eq!(all.size_chirho(), None);
    assert!(all.iter_chirho().is_none());
    let e = ComplementDomainChirho::empty_chirho();
    assert_eq!(e.size_chirho(), Some(0));
    assert_eq!(e.iter_chirho(), Some(vec![]));
    assert!(e.complement_chirho().is_infinite_chirho());
    let s = ComplementDomainChirho::singleton_chirho(9);
    assert_eq!(s.size_chirho(), Some(1));
    assert_eq!(s.iter_chirho(), Some(vec![9]));
    assert!(ComplementDomainChirho::all_chirho().contains_chirho(-7));
}

#[test]
fn complement_union_cases() {
    let f = ComplementDomainChirho::from_set_chirho([1, 2].into_iter().collect());
    let c = ComplementDomainChirho::all_except_chirho(2);
    let u = f.union_chirho(&c);
    assert!(u.is_infinite_chirho());
    assert!(u.contains_chirho(2));
    assert!(matches!(u, ComplementDomainChirho::AllChirho));
    let c1 = ComplementDomainChirho::all_except_chirho(1);
    let c2 = ComplementDomainChirho::all_except_chirho(2);
    assert!(matches!(c1.union_chirho(&c2), ComplementDomainChirho::AllChirho));
    let g = ComplementDomainChirho::from_set_chirho([3].into_iter().collect());
    let fg = f.union_chirho(&g);
    assert_eq!(fg.size_chirho(), Some(3));
    let x = ComplementDomainChirho::from_set_chirho([1].into_iter().collect());
    let y = ComplementDomainChirho::from_set_chirho([2].into_iter().collect());
    assert!(x.intersect_chirho(&y).is_empty_chirho());
    assert!(x.intersect_chirho(&ComplementDomainChirho::empty_chirho()).is_empty_chirho());
    assert_eq!(ComplementDomainChirho::all_chirho().intersect_chirho(&x).size_chirho(), Some(1));
}
