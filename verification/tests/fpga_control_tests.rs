use minikanren_1bit_chirho::backend::{ConstraintChirho, HbmConfigChirho};
use minikanren_1bit_chirho::fpga_control::{
    hbm_available_decision_chirho, interleave_pairs_chirho, pack_cmd_chirho, propagate_primitive_chirho,
    recorded_version_chirho, solve_primitive_chirho, use_hbm_batch_chirho, version_accepted_chirho,
};

#[test]
fn fpga_versions_chirho() {
    assert!(version_accepted_chirho(false, 0xF254_0001));
    assert!(version_accepted_chirho(false, 0xF255_0001));
    assert!(version_accepted_chirho(false, 0xF2AB_CDEF));
    assert!(!version_accepted_chirho(false, 0xF154_0001));
    assert!(version_accepted_chirho(true, 0));
    assert_eq!(recorded_version_chirho(true, 7), 0xF255_0001);
    assert_eq!(recorded_version_chirho(false, 7), 7);
}

#[test]
fn fpga_hbm_decisions_chirho() {
    assert!(hbm_available_decision_chirho(0x07, true, false));
    assert!(!hbm_available_decision_chirho(0x03, true, false));
    assert!(!hbm_available_decision_chirho(0x07, false, false));
    assert!(hbm_available_decision_chirho(0, false, true));
    let cfg_chirho = HbmConfigChirho::default();
    assert!(!use_hbm_batch_chirho(true, 99, &cfg_chirho));
    assert!(use_hbm_batch_chirho(true, 100, &cfg_chirho));
    assert!(!use_hbm_batch_chirho(false, 1000, &cfg_chirho));
}

#[test]
fn fpga_command_layout_chirho() {
    assert_eq!(pack_cmd_chirho(0x13, 0x1234_5678_9ABC_DEF0, 0xFFFF_FFFF_0000_0001), (0x9ABC_DEF0, 1, 3));
    assert_eq!(interleave_pairs_chirho(&[(1, 2), (3, 4)]), vec![1, 2, 3, 4]);
    assert_eq!(interleave_pairs_chirho(&[]), Vec::<u64>::new());
}

#[test]
fn fpga_propagation_skips_binary_chirho() {
    let domains_chirho = vec![0b0110u64, 0b0010, 0b1111];
    let constraints_chirho = vec![
        ConstraintChirho::NotEqualChirho { var_a_chirho: 0, var_b_chirho: 1 },
        ConstraintChirho::BinaryChirho { var_a_chirho: 2, var_b_chirho: 2, allowed_pairs_chirho: vec![] },
        ConstraintChirho::FixedChirho { var_chirho: 2, value_chirho: 3 },
    ];
    assert_eq!(propagate_primitive_chirho(&domains_chirho, &constraints_chirho), vec![0b0100, 0b0010, 0b1000]);
}

#[test]
fn fpga_search_ignores_binary_chirho() {
    let domains_chirho = vec![0b11u64, 0b11];
    let constraints_chirho = vec![
        ConstraintChirho::NotEqualChirho { var_a_chirho: 0, var_b_chirho: 1 },
        ConstraintChirho::BinaryChirho { var_a_chirho: 0, var_b_chirho: 1, allowed_pairs_chirho: vec![0, 0] },
    ];
    let mut sols_chirho: Vec<Vec<u64>> = solve_primitive_chirho(&domains_chirho, &constraints_chirho, 0)
        .into_iter()
        .map(|s_chirho| s_chirho.assignments_chirho)
        .collect();
    sols_chirho.sort();
    assert_eq!(sols_chirho, vec![vec![0, 1], vec![1, 0]]);
    assert_eq!(solve_primitive_chirho(&domains_chirho, &constraints_chirho, 1).len(), 1);
}
