use minikanren_1bit_chirho::hardware::BitVec64Chirho;
use minikanren_1bit_chirho::hardware_state::SearchStateHwChirho;
use minikanren_1bit_chirho::hw_goals::{
    apply_goal_chirho, conde_hw_chirho, conj_hw_chirho, disj_hw_chirho, eq_hw_chirho, fail_hw_chirho, run_hw_chirho,
    succeed_hw_chirho, unify_hw_chirho,
};

#[test]
fn test_eq_hw_chirho() {
    let goal_chirho = eq_hw_chirho::<4>(0, BitVec64Chirho(0b1110));
    let results_chirho = run_hw_chirho(10, 0, goal_chirho);
    assert_eq!(results_chirho, vec![1, 2, 3]);
}

#[test]
fn test_conde_hw_chirho() {
    let goal_chirho = conde_hw_chirho::<4>(vec![
        vec![eq_hw_chirho(0, BitVec64Chirho(0b10))],
        vec![eq_hw_chirho(0, BitVec64Chirho(0b100))],
    ]);
    let results_chirho = run_hw_chirho(10, 0, goal_chirho);
    assert_eq!(results_chirho, vec![1, 2]);
}

#[test]
fn test_conj_hw_chirho() {
    let goal_chirho = conj_hw_chirho::<4>(
        eq_hw_chirho(0, BitVec64Chirho(0b1110)),
        eq_hw_chirho(0, BitVec64Chirho(0b11100)),
    );
    let results_chirho = run_hw_chirho(10, 0, goal_chirho);
    assert_eq!(results_chirho, vec![2, 3]);
}

#[test]
fn test_disj_hw_chirho() {
    let goal_chirho = disj_hw_chirho::<4>(
        eq_hw_chirho(0, BitVec64Chirho(1 << 5)),
        eq_hw_chirho(0, BitVec64Chirho(1 << 7)),
    );
    let results_chirho = run_hw_chirho(10, 0, goal_chirho);
    assert_eq!(results_chirho, vec![5, 7]);
}

#[test]
fn test_fail_hw_chirho() {
    let goal_chirho = eq_hw_chirho::<4>(0, BitVec64Chirho::ZERO_CHIRHO());
    let results_chirho = run_hw_chirho(10, 0, goal_chirho);
    assert!(results_chirho.is_empty());
}

#[test]
fn hw_goal_limits_and_unify_chirho() {
    // x in {1,2,3}, y in {2,3,4}, x == y: both {2,3}.
    let g = conj_hw_chirho::<4>(
        conj_hw_chirho(eq_hw_chirho(0, BitVec64Chirho(0b1110)), eq_hw_chirho(1, BitVec64Chirho(0b11100))),
        unify_hw_chirho(0, 1),
    );
    assert_eq!(run_hw_chirho(10, 1, g), vec![2, 3]);
    let g = eq_hw_chirho::<4>(0, BitVec64Chirho(0b1111));
    assert_eq!(run_hw_chirho(2, 0, g), vec![0, 1]);
    assert!(run_hw_chirho(10, 0, fail_hw_chirho::<4>()).is_empty());
    assert_eq!(run_hw_chirho(3, 0, succeed_hw_chirho::<4>()), vec![0, 1, 2]);
    // A query variable outside the state gives nothing.
    assert!(run_hw_chirho(3, 9, succeed_hw_chirho::<4>()).is_empty());
    let states = vec![SearchStateHwChirho::<2>::new_chirho(), SearchStateHwChirho::<2>::new_chirho()];
    let out = apply_goal_chirho(&unify_hw_chirho::<2>(0, 1), states);
    assert_eq!(out.len(), 2);
}
