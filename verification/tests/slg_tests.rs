use minikanren_1bit_chirho::slg::{EvenOddTensorChirho, GoalPatternChirho, GoalStatusChirho, SlgTableChirho};

#[test]
fn test_slg_table_basic_chirho() {
    let mut table_chirho = SlgTableChirho::new_chirho();

    let even_0_chirho: GoalPatternChirho = (0, vec![0]);
    let odd_1_chirho: GoalPatternChirho = (1, vec![1]);

    table_chirho.get_or_create_chirho(even_0_chirho.clone());
    table_chirho.get_or_create_chirho(odd_1_chirho.clone());

    assert_eq!(table_chirho.num_goals_chirho(), 2);
}

#[test]
fn test_slg_dependency_chirho() {
    let mut table_chirho = SlgTableChirho::new_chirho();

    let even_2_chirho: GoalPatternChirho = (0, vec![2]);
    let odd_1_chirho: GoalPatternChirho = (1, vec![1]);

    table_chirho.add_dependency_chirho(even_2_chirho.clone(), odd_1_chirho.clone());

    let (goal_chirho, is_new_chirho) = table_chirho.get_or_create_chirho(even_2_chirho.clone());
    assert!(!is_new_chirho);
    assert!(goal_chirho.depends_on_chirho.contains(&odd_1_chirho));
}

#[test]
fn test_slg_scc_chirho() {
    let mut table_chirho = SlgTableChirho::new_chirho();

    let goal_a_chirho: GoalPatternChirho = (0, vec![]);
    let goal_b_chirho: GoalPatternChirho = (1, vec![]);

    table_chirho.add_dependency_chirho(goal_a_chirho.clone(), goal_b_chirho.clone());
    table_chirho.add_dependency_chirho(goal_b_chirho.clone(), goal_a_chirho.clone());

    table_chirho.compute_sccs_chirho();

    assert_eq!(table_chirho.num_sccs_chirho(), 1);
    let scc_chirho = table_chirho.get_scc_chirho(&goal_a_chirho).unwrap();
    assert!(scc_chirho.contains(&goal_a_chirho));
    assert!(scc_chirho.contains(&goal_b_chirho));
}

#[test]
fn test_even_odd_tensor_chirho() {
    let mut tensor_chirho = EvenOddTensorChirho::new_chirho();

    tensor_chirho.compute_up_to_chirho(10);

    assert!(tensor_chirho.is_even_chirho(0));
    assert!(tensor_chirho.is_even_chirho(2));
    assert!(tensor_chirho.is_even_chirho(4));
    assert!(!tensor_chirho.is_even_chirho(1));
    assert!(!tensor_chirho.is_even_chirho(3));

    assert!(tensor_chirho.is_odd_chirho(1));
    assert!(tensor_chirho.is_odd_chirho(3));
    assert!(!tensor_chirho.is_odd_chirho(0));
    assert!(!tensor_chirho.is_odd_chirho(2));

    assert_eq!(tensor_chirho.get_evens_chirho(), vec![0, 2, 4, 6, 8, 10]);
    assert_eq!(tensor_chirho.get_odds_chirho(), vec![1, 3, 5, 7, 9]);
}

#[test]
fn test_slg_completion_chirho() {
    let mut table_chirho = SlgTableChirho::new_chirho();

    let goal_chirho: GoalPatternChirho = (0, vec![0]);
    table_chirho.get_or_create_chirho(goal_chirho.clone());

    assert!(!table_chirho.is_complete_chirho(&goal_chirho));

    table_chirho.compute_sccs_chirho();
    table_chirho.complete_scc_chirho(0);

    assert!(table_chirho.is_complete_chirho(&goal_chirho));
}

#[test]
fn slg_self_dependency_records_nothing_chirho() {
    let mut table_chirho = SlgTableChirho::new_chirho();
    let g_chirho: GoalPatternChirho = (3, vec![1, 2]);
    table_chirho.add_dependency_chirho(g_chirho.clone(), g_chirho.clone());
    assert_eq!(table_chirho.num_goals_chirho(), 0);
}

#[test]
fn slg_answers_once_chirho() {
    let mut table_chirho = SlgTableChirho::new_chirho();
    let g_chirho: GoalPatternChirho = (0, vec![7]);
    assert!(!table_chirho.add_answer_chirho(&g_chirho, vec![1]));
    table_chirho.get_or_create_chirho(g_chirho.clone());
    assert!(table_chirho.add_answer_chirho(&g_chirho, vec![1]));
    assert!(!table_chirho.add_answer_chirho(&g_chirho, vec![1]));
    assert!(table_chirho.add_answer_chirho(&g_chirho, vec![2, 3]));
    assert_eq!(table_chirho.get_answers_chirho(&g_chirho), vec![vec![1], vec![2, 3]]);
    assert_eq!(table_chirho.get_answers_chirho(&(9, vec![])), Vec::<Vec<u32>>::new());
}

#[test]
fn slg_components_in_dependency_order_chirho() {
    // a -> b <-> c -> d ; e alone
    let mut table_chirho = SlgTableChirho::new_chirho();
    let a: GoalPatternChirho = (0, vec![]);
    let b: GoalPatternChirho = (1, vec![]);
    let c: GoalPatternChirho = (2, vec![]);
    let d: GoalPatternChirho = (3, vec![]);
    let e: GoalPatternChirho = (4, vec![]);
    table_chirho.add_dependency_chirho(a.clone(), b.clone());
    table_chirho.add_dependency_chirho(b.clone(), c.clone());
    table_chirho.add_dependency_chirho(c.clone(), b.clone());
    table_chirho.add_dependency_chirho(c.clone(), d.clone());
    table_chirho.get_or_create_chirho(e.clone());
    table_chirho.compute_sccs_chirho();
    assert_eq!(table_chirho.num_sccs_chirho(), 4);
    let id_chirho = |t: &mut SlgTableChirho, p: &GoalPatternChirho| t.get_or_create_chirho(p.clone()).0.scc_id_chirho.unwrap();
    let (ia, ib, ic, id, ie) = (
        id_chirho(&mut table_chirho, &a),
        id_chirho(&mut table_chirho, &b),
        id_chirho(&mut table_chirho, &c),
        id_chirho(&mut table_chirho, &d),
        id_chirho(&mut table_chirho, &e),
    );
    assert_eq!(ib, ic);
    assert!(id < ib);
    assert!(ib < ia);
    assert_ne!(ie, ia);
    assert_ne!(ie, ib);
    assert_ne!(ie, id);
    let scc_chirho = table_chirho.get_scc_chirho(&b).unwrap();
    assert_eq!(scc_chirho.len(), 2);
    assert!(scc_chirho.contains(&c));
    table_chirho.complete_scc_chirho(ib);
    assert!(table_chirho.is_complete_chirho(&b));
    assert!(table_chirho.is_complete_chirho(&c));
    assert!(!table_chirho.is_complete_chirho(&a));
    assert!(!table_chirho.is_complete_chirho(&d));
    let (goal_chirho, _) = table_chirho.get_or_create_chirho(c.clone());
    assert_eq!(goal_chirho.status_chirho, GoalStatusChirho::CompleteChirho);
    assert!(goal_chirho.depended_by_chirho.contains(&b));
}

#[test]
fn slg_complete_unknown_component_chirho() {
    let mut table_chirho = SlgTableChirho::new_chirho();
    let g_chirho: GoalPatternChirho = (0, vec![]);
    table_chirho.get_or_create_chirho(g_chirho.clone());
    table_chirho.complete_scc_chirho(5);
    assert!(!table_chirho.is_complete_chirho(&g_chirho));
    assert!(table_chirho.get_scc_chirho(&g_chirho).is_none());
}

#[test]
fn even_odd_parity_law_chirho() {
    let mut tensor_chirho = EvenOddTensorChirho::default();
    tensor_chirho.compute_up_to_chirho(70);
    for n_chirho in 0..64u32 {
        assert_eq!(tensor_chirho.is_even_chirho(n_chirho), n_chirho % 2 == 0);
        assert_eq!(tensor_chirho.is_odd_chirho(n_chirho), n_chirho % 2 == 1);
    }
    assert!(tensor_chirho.is_even_chirho(100));
    assert!(tensor_chirho.is_odd_chirho(101));
    assert_eq!(tensor_chirho.get_evens_chirho().len(), 32);
}

#[test]
fn test_even_zero_after_compute_zero_chirho() {
    let mut t_chirho = EvenOddTensorChirho::new_chirho();
    t_chirho.compute_up_to_chirho(0);
    assert!(t_chirho.is_even_chirho(0));
    assert_eq!(t_chirho.get_evens_chirho(), vec![0]);
}
