use minikanren_1bit_chirho::adaptive::{analyze_mode_chirho, reorder_goals_chirho, ModeChirho, StrategyChirho};

#[test]
fn test_mode_analysis_chirho() {
    assert_eq!(analyze_mode_chirho(&[true, true]), ModeChirho::GroundChirho);
    assert_eq!(analyze_mode_chirho(&[true, false]), ModeChirho::MixedChirho);
    assert_eq!(analyze_mode_chirho(&[false, false]), ModeChirho::FreeChirho);
}

#[test]
fn test_goal_reordering_chirho() {
    let goals_chirho = vec!["goal_a", "goal_b", "goal_c"];
    let groundness_chirho = vec![vec![false, false], vec![true, true], vec![true, false]];
    let reordered_chirho = reorder_goals_chirho(&goals_chirho, &groundness_chirho);
    assert_eq!(reordered_chirho[0], (1, "goal_b"));
    assert_eq!(reordered_chirho[1], (2, "goal_c"));
    assert_eq!(reordered_chirho[2], (0, "goal_a"));
}

#[test]
fn reordering_is_stable_chirho() {
    let goals = vec![10u32, 20, 30, 40];
    let ground = vec![vec![true], vec![false], vec![true], vec![false]];
    let r = reorder_goals_chirho(&goals, &ground);
    assert_eq!(r, vec![(0, 10), (2, 30), (1, 20), (3, 40)]);
    // Goals past the groundness list are dropped.
    assert_eq!(reorder_goals_chirho(&goals, &ground[..2]).len(), 2);
    assert_eq!(analyze_mode_chirho(&[]), ModeChirho::GroundChirho);
    assert_ne!(StrategyChirho::SymbolicChirho, StrategyChirho::BitVec64Chirho);
}
