use minikanren_1bit_chirho::hardware::BitVec64Chirho;
use minikanren_1bit_chirho::optics_hw::{
    collect_nonempty_chirho, traverse_all_chirho, DomainHwChirho, LensHwChirho,
    PartitionedDomainChirho, PrismHwChirho, StateHwChirho,
};

#[test]
fn test_domain_hw_chirho() {
    let d1_chirho = DomainHwChirho::singleton_chirho(5);
    let d2_chirho = DomainHwChirho::singleton_chirho(5);
    let d3_chirho = DomainHwChirho::singleton_chirho(7);
    let i1_chirho = d1_chirho.intersect_chirho(&d2_chirho);
    assert!(!i1_chirho.is_empty_chirho());
    assert_eq!(i1_chirho.get_singleton_chirho(), Some(5));
    let i2_chirho = d1_chirho.intersect_chirho(&d3_chirho);
    assert!(i2_chirho.is_empty_chirho());
}

#[test]
fn test_prism_hw_chirho() {
    let even_mask_chirho = BitVec64Chirho(0x5555555555555555);
    let prism_chirho = PrismHwChirho::new_chirho(even_mask_chirho);
    let domain_chirho = DomainHwChirho { bits_chirho: BitVec64Chirho(0b1111) };
    let focused_chirho = prism_chirho.preview_chirho(&domain_chirho).unwrap();
    assert_eq!(focused_chirho.bits_chirho.0, 0b0101);
}

#[test]
fn test_lens_hw_chirho() {
    let mut state_chirho = StateHwChirho::<4>::new_all_full_chirho();
    let lens_chirho = LensHwChirho::new_chirho(2);
    state_chirho = lens_chirho.set_chirho(state_chirho, DomainHwChirho::singleton_chirho(42));
    let got_chirho = lens_chirho.get_chirho(&state_chirho);
    assert_eq!(got_chirho.get_singleton_chirho(), Some(42));
}

#[test]
fn test_traverse_all_chirho() {
    let state_chirho = StateHwChirho::<3>::new_all_full_chirho();
    let mask_chirho = DomainHwChirho { bits_chirho: BitVec64Chirho(0xFF) };
    let new_state_chirho = traverse_all_chirho(state_chirho, |d| d.intersect_chirho(&mask_chirho));
    for i in 0..3 {
        assert_eq!(new_state_chirho.domains_chirho[i].bits_chirho.0, 0xFF);
    }
}

#[test]
fn test_partitioned_domain_chirho() {
    let d1_chirho = PartitionedDomainChirho::singleton_chirho(100);
    assert_eq!(d1_chirho.popcount_chirho(), 1);
    let d2_chirho = PartitionedDomainChirho::singleton_chirho(200);
    let union_chirho = d1_chirho.union_chirho(&d2_chirho);
    assert_eq!(union_chirho.popcount_chirho(), 2);
    let inter_chirho = d1_chirho.intersect_chirho(&d2_chirho);
    assert!(inter_chirho.is_empty_chirho());
}

#[test]
fn lens_laws_on_values() {
    let s = StateHwChirho::<3>::new_all_empty_chirho();
    let lens = LensHwChirho::new_chirho(1);
    let d = DomainHwChirho::singleton_chirho(9);
    let s2 = lens.set_chirho(s, d);
    assert_eq!(lens.get_chirho(&s2), d);
    let s3 = lens.set_chirho(s2, lens.get_chirho(&s2));
    assert_eq!(s3.domains_chirho, s2.domains_chirho);
    let s4 = lens.over_chirho(s2, |x| x.union_chirho(&DomainHwChirho::singleton_chirho(1)));
    assert_eq!(s4.domains_chirho[1].popcount_chirho(), 2);
    assert_eq!(collect_nonempty_chirho(&s4), [false, true, false]);
}

#[test]
fn prism_review_and_empty_preview() {
    let p = PrismHwChirho::new_chirho(BitVec64Chirho(0b1100));
    let d = DomainHwChirho { bits_chirho: BitVec64Chirho(0b0011) };
    assert!(p.preview_chirho(&d).is_none());
    let r = p.review_chirho(&DomainHwChirho { bits_chirho: BitVec64Chirho(0b1111) });
    assert_eq!(r.bits_chirho.0, 0b1100);
    assert!(DomainHwChirho::full_chirho().union_chirho(&DomainHwChirho::empty_chirho()).bits_chirho.0 == u64::MAX);
    assert_eq!(DomainHwChirho::full_chirho().popcount_chirho(), 64);
    assert_eq!(DomainHwChirho::full_chirho().get_singleton_chirho(), None);
}

#[test]
fn partitioned_out_of_range_and_full() {
    assert!(PartitionedDomainChirho::singleton_chirho(256).is_empty_chirho());
    assert_eq!(PartitionedDomainChirho::full_chirho().popcount_chirho(), 256);
    assert!(PartitionedDomainChirho::empty_chirho().is_empty_chirho());
}
