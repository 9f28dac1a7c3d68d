use minikanren_1bit_chirho::hardware::{BitVec256Chirho, BitVec512Chirho, BitVec64Chirho};
use minikanren_1bit_chirho::hardware_state::{
    CamHwChirho, SearchState256HwChirho, SearchStateHwChirho, UnifyUnitHwChirho,
};

#[test]
fn test_bitvec_basic_chirho() {
    let a_chirho = BitVec64Chirho(0b1100);
    let b_chirho = BitVec64Chirho(0b1010);

    assert_eq!(a_chirho.and_chirho(b_chirho).0, 0b1000);
    assert_eq!(a_chirho.or_chirho(b_chirho).0, 0b1110);
    assert_eq!(a_chirho.popcount_chirho(), 2);
}

#[test]
fn test_bitvec_singleton_chirho() {
    let single_chirho = BitVec64Chirho(0b1000);
    assert!(single_chirho.is_singleton_chirho());
    assert_eq!(single_chirho.ctz_chirho(), 3);

    let multi_chirho = BitVec64Chirho(0b1100);
    assert!(!multi_chirho.is_singleton_chirho());
}

#[test]
fn test_search_state_chirho() {
    let mut state_chirho = SearchStateHwChirho::<4>::new_chirho();
    state_chirho.set_domain_chirho(0, BitVec64Chirho(0b1111));
    state_chirho.set_domain_chirho(1, BitVec64Chirho(0b111100));
    state_chirho.unify_chirho(0, 1);
    assert_eq!(state_chirho.domains_chirho[0].0, 0b1100);
    assert_eq!(state_chirho.domains_chirho[1].0, 0b1100);
    assert!(state_chirho.valid_chirho);
}

#[test]
fn test_search_failure_chirho() {
    let mut state_chirho = SearchStateHwChirho::<2>::new_chirho();
    state_chirho.set_domain_chirho(0, BitVec64Chirho(0b0001));
    state_chirho.set_domain_chirho(1, BitVec64Chirho(0b0010));
    state_chirho.unify_chirho(0, 1);
    assert!(!state_chirho.valid_chirho);
}

#[test]
fn test_cam_lookup_chirho() {
    let mut cam_chirho = CamHwChirho::<16>::new_chirho();
    cam_chirho.insert_chirho(0, 1);
    cam_chirho.insert_chirho(2, 3);
    let results_chirho = cam_chirho.lookup_chirho(0);
    assert!(results_chirho.test_bit_chirho(1));
    assert!(!results_chirho.test_bit_chirho(3));
}

#[test]
fn test_fork_chirho() {
    let state_chirho = SearchStateHwChirho::<2>::new_chirho();
    let mut state2_chirho = state_chirho;
    state2_chirho.set_domain_chirho(0, BitVec64Chirho(0b1111));
    let (with_chirho, without_chirho) = state2_chirho.fork_on_bit_chirho(0, 1);
    assert_eq!(with_chirho.domains_chirho[0].0, 0b0010);
    assert_eq!(without_chirho.domains_chirho[0].0, 0b1101);
}

#[test]
fn test_bitvec256_basic_chirho() {
    let a_chirho = BitVec256Chirho([0b1100, 0b1111, 0, 0]);
    let b_chirho = BitVec256Chirho([0b1010, 0b0011, 0, 0]);

    let and_chirho = a_chirho.and_chirho(b_chirho);
    assert_eq!(and_chirho.0[0], 0b1000);
    assert_eq!(and_chirho.0[1], 0b0011);

    let or_chirho = a_chirho.or_chirho(b_chirho);
    assert_eq!(or_chirho.0[0], 0b1110);
    assert_eq!(or_chirho.0[1], 0b1111);

    assert_eq!(a_chirho.popcount_chirho(), 6);
}

#[test]
fn test_bitvec256_singleton_chirho() {
    let single_chirho = BitVec256Chirho::ZERO_CHIRHO().set_bit_chirho(130);
    assert!(single_chirho.is_singleton_chirho());
    assert_eq!(single_chirho.find_first_chirho(), 130);
    assert!(single_chirho.test_bit_chirho(130));
    assert!(!single_chirho.test_bit_chirho(129));

    let multi_chirho = single_chirho.set_bit_chirho(200);
    assert!(!multi_chirho.is_singleton_chirho());
    assert_eq!(multi_chirho.popcount_chirho(), 2);
}

#[test]
fn test_bitvec256_lowest_chirho() {
    let v_chirho = BitVec256Chirho([0, 0b110, 0, 0]);
    let lowest_chirho = v_chirho.lowest_bit_chirho();
    assert_eq!(lowest_chirho.find_first_chirho(), 65);
    assert!(lowest_chirho.is_singleton_chirho());

    let rest_chirho = v_chirho.clear_lowest_chirho();
    assert_eq!(rest_chirho.find_first_chirho(), 66);
}

#[test]
fn test_search_state_256_chirho() {
    let mut state_chirho = SearchState256HwChirho::<4>::new_chirho();
    let mut x_domain_chirho = BitVec256Chirho::ZERO_CHIRHO();
    for i in 100..104 {
        x_domain_chirho = x_domain_chirho.set_bit_chirho(i);
    }
    let mut y_domain_chirho = BitVec256Chirho::ZERO_CHIRHO();
    for i in 102..106 {
        y_domain_chirho = y_domain_chirho.set_bit_chirho(i);
    }
    state_chirho.set_domain_chirho(0, x_domain_chirho);
    state_chirho.set_domain_chirho(1, y_domain_chirho);
    state_chirho.unify_chirho(0, 1);
    assert_eq!(state_chirho.domains_chirho[0].popcount_chirho(), 2);
    assert!(state_chirho.domains_chirho[0].test_bit_chirho(102));
    assert!(state_chirho.domains_chirho[0].test_bit_chirho(103));
    assert!(state_chirho.valid_chirho);
}

#[test]
fn test_search_state_256_fork_chirho() {
    let mut state_chirho = SearchState256HwChirho::<2>::new_chirho();
    let mut domain_chirho = BitVec256Chirho::ZERO_CHIRHO();
    domain_chirho = domain_chirho.set_bit_chirho(100);
    domain_chirho = domain_chirho.set_bit_chirho(101);
    domain_chirho = domain_chirho.set_bit_chirho(102);
    state_chirho.set_domain_chirho(0, domain_chirho);

    let (with_chirho, without_chirho) = state_chirho.fork_lowest_chirho(0);
    assert!(with_chirho.domains_chirho[0].is_singleton_chirho());
    assert_eq!(with_chirho.get_value_chirho(0), Some(100));
    assert_eq!(without_chirho.domains_chirho[0].popcount_chirho(), 2);
    assert!(!without_chirho.domains_chirho[0].test_bit_chirho(100));
    assert!(without_chirho.domains_chirho[0].test_bit_chirho(101));
}

// Further cases of the library's own.

#[test]
fn bitvec64_bit_ops_exact() {
    let a = BitVec64Chirho(0b1100);
    assert_eq!(a.not_chirho().0, !0b1100u64);
    assert_eq!(a.xor_chirho(BitVec64Chirho(0b1010)).0, 0b0110);
    assert_eq!(a.clz_chirho(), 60);
    assert_eq!(BitVec64Chirho(0).ctz_chirho(), 64);
    assert!(BitVec64Chirho::ZERO_CHIRHO().is_zero_chirho());
    assert_eq!(BitVec64Chirho::ONES_CHIRHO().popcount_chirho(), 64);
    assert_eq!(a.set_bit_chirho(0).0, 0b1101);
    assert_eq!(a.clear_bit_chirho(3).0, 0b0100);
    assert!(a.test_bit_chirho(2));
    assert!(!a.test_bit_chirho(0));
    assert_eq!(a.lowest_bit_chirho().0, 0b0100);
    assert_eq!(a.clear_lowest_chirho().0, 0b1000);
    assert_eq!(BitVec64Chirho(0).lowest_bit_chirho().0, 0);
    assert!(!BitVec64Chirho(0).is_singleton_chirho());
}

#[test]
fn bitvec256_edges() {
    assert_eq!(BitVec256Chirho::ZERO_CHIRHO().find_first_chirho(), 256);
    assert!(BitVec256Chirho::ZERO_CHIRHO().is_zero_chirho());
    assert_eq!(BitVec256Chirho::ONES_CHIRHO().popcount_chirho(), 256);
    let v = BitVec256Chirho::ZERO_CHIRHO().set_bit_chirho(300);
    assert!(v.is_zero_chirho());
    assert!(!v.test_bit_chirho(300));
    let w = BitVec256Chirho::ZERO_CHIRHO().set_bit_chirho(255);
    assert_eq!(w.0[3], 1u64 << 63);
    assert!(w.clear_bit_chirho(255).is_zero_chirho());
    assert_eq!(w.not_chirho().popcount_chirho(), 255);
    assert_eq!(w.xor_chirho(w).popcount_chirho(), 0);
    assert_eq!(BitVec256Chirho::from_64_chirho(BitVec64Chirho(7)).to_64_chirho().0, 7);
}

#[test]
fn bitvec512_find_and_count() {
    let v = BitVec512Chirho::ZERO_CHIRHO().set_bit_chirho(300).set_bit_chirho(511);
    assert_eq!(v.find_first_chirho(), 300);
    assert_eq!(v.popcount_chirho(), 2);
    assert!(v.test_bit_chirho(511));
    assert!(!v.test_bit_chirho(512));
    assert!(!v.is_singleton_chirho());
    assert_eq!(BitVec512Chirho::ZERO_CHIRHO().find_first_chirho(), 512);
    assert!(BitVec512Chirho::ZERO_CHIRHO().is_zero_chirho());
    assert_eq!(BitVec512Chirho::ONES_CHIRHO().popcount_chirho(), 512);
    assert_eq!(v.and_chirho(BitVec512Chirho::ONES_CHIRHO().not_chirho()).popcount_chirho(), 0);
    assert_eq!(v.or_chirho(BitVec512Chirho::ZERO_CHIRHO()).popcount_chirho(), 2);
}

#[test]
fn search_state_constrain_and_solve() {
    let mut s = SearchStateHwChirho::<2>::new_chirho();
    s.constrain_chirho(0, 5);
    assert_eq!(s.get_value_chirho(0), Some(5));
    assert!(!s.is_solved_chirho());
    s.constrain_chirho(1, 7);
    assert!(s.is_solved_chirho());
    s.constrain_chirho(1, 8);
    assert!(!s.valid_chirho);
    s.constrain_chirho(9, 1);
    assert_eq!(s.get_value_chirho(9), None);
}

#[test]
fn search_state_256_constrain() {
    let mut s = SearchState256HwChirho::<1>::new_chirho();
    s.constrain_chirho(0, 200);
    assert_eq!(s.get_value_chirho(0), Some(200));
    assert!(s.is_solved_chirho());
    s.constrain_chirho(0, 3);
    assert!(!s.valid_chirho);
}

#[test]
fn cam_capacity_and_masked_lookup() {
    let mut cam = CamHwChirho::<2>::new_chirho();
    assert!(cam.insert_chirho(1, 10));
    assert!(cam.insert_chirho(2, 20));
    assert!(!cam.insert_chirho(3, 30));
    let r = cam.lookup_masked_chirho(BitVec64Chirho((1 << 1) | (1 << 2)));
    assert_eq!(r.0, (1 << 10) | (1 << 20));
    assert_eq!(cam.lookup_chirho(3).0, 0);
    let c = cam.clone();
    assert_eq!(c.lookup_chirho(2).0, 1 << 20);
}

#[test]
fn unify_unit_constraints() {
    let mut u = UnifyUnitHwChirho::<3>::new_chirho();
    u.domains_chirho[0] = BitVec64Chirho(0b0110);
    u.domains_chirho[1] = BitVec64Chirho(0b0011);
    assert!(u.apply_constraints_chirho(&[(0, 1), (1, 2)]));
    assert_eq!(u.domains_chirho[2].0, 0b0010);
    assert!(!u.apply_eq_chirho(0, 5));
    u.domains_chirho[2] = BitVec64Chirho(0b1000);
    assert!(!u.apply_constraints_chirho(&[(0, 2), (0, 1)]));
    assert_eq!(u.domains_chirho[0].0, 0);
}
