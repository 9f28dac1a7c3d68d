use minikanren_1bit_chirho::backend::{
    BackendConfigChirho, ConstraintChirho, CpuBackendChirho, HbmConfigChirho, SolverBackendChirho,
};

#[test]
fn cpu_chirho_test_intersect_chirho() {
    let backend_chirho = CpuBackendChirho::new_chirho();
    assert_eq!(backend_chirho.intersect_64_chirho(0xFF00, 0x0FF0), 0x0F00);
}

#[test]
fn test_simple_csp_chirho() {
    let backend_chirho = CpuBackendChirho::new_chirho();
    let domains_chirho = vec![0b11, 0b11];
    let constraints_chirho = vec![ConstraintChirho::NotEqualChirho { var_a_chirho: 0, var_b_chirho: 1 }];
    let solutions_chirho = backend_chirho.solve_chirho(&domains_chirho, &constraints_chirho, 0);
    assert_eq!(solutions_chirho.len(), 2);
}

#[test]
fn test_equal_constraint_chirho() {
    let backend_chirho = CpuBackendChirho::new_chirho();
    let domains_chirho = vec![0b111, 0b110];
    let constraints_chirho = vec![ConstraintChirho::EqualChirho { var_a_chirho: 0, var_b_chirho: 1 }];
    let propagated_chirho = backend_chirho.propagate_chirho(&domains_chirho, &constraints_chirho);
    assert_eq!(propagated_chirho[0], 0b110);
    assert_eq!(propagated_chirho[1], 0b110);
}

#[test]
fn backend_word_operations_chirho() {
    let b = CpuBackendChirho::with_parallel_chirho(false);
    assert_eq!(b.union_64_chirho(0b1010, 0b0101), 0b1111);
    assert_eq!(b.complement_64_chirho(0), u64::MAX);
    assert_eq!(b.popcount_64_chirho(0b1011), 3);
    assert_eq!(b.intersect_batch_chirho(&[(0b11, 0b10), (0xF0, 0x3C)]), vec![0b10, 0x30]);
    assert_eq!(b.popcount_batch_chirho(&[0, 7, u64::MAX]), vec![0, 3, 64]);
    assert!(b.is_healthy_chirho());
    let info = b.info_chirho();
    assert_eq!(info.name_chirho, "cpu");
    assert_eq!(info.throughput_estimate_chirho, 500_000);
}

#[test]
fn backend_not_equal_propagates_singletons_chirho() {
    let b = CpuBackendChirho::new_chirho();
    let domains = vec![0b0010, 0b0111, 0b0110];
    let cs = vec![
        ConstraintChirho::NotEqualChirho { var_a_chirho: 0, var_b_chirho: 1 },
        ConstraintChirho::NotEqualChirho { var_a_chirho: 1, var_b_chirho: 2 },
        ConstraintChirho::NotEqualChirho { var_a_chirho: 0, var_b_chirho: 2 },
    ];
    // 0 = {1}; so 2 = {2}; so 1 = {0}.
    assert_eq!(b.propagate_chirho(&domains, &cs), vec![0b0010, 0b0001, 0b0100]);
}

#[test]
fn backend_fixed_and_binary_chirho() {
    let b = CpuBackendChirho::new_chirho();
    // x1 must be x0 + 1, for x0 in 0..3.
    let allowed = vec![0b0010, 0b0100, 0b1000];
    let cs = vec![
        ConstraintChirho::BinaryChirho { var_a_chirho: 0, var_b_chirho: 1, allowed_pairs_chirho: allowed.clone() },
        ConstraintChirho::FixedChirho { var_chirho: 0, value_chirho: 1 },
    ];
    let domains = vec![0b1111, 0b1111];
    assert_eq!(b.propagate_chirho(&domains, &cs), vec![0b0010, 0b0100]);
    let only_binary = vec![ConstraintChirho::BinaryChirho { var_a_chirho: 0, var_b_chirho: 1, allowed_pairs_chirho: allowed }];
    // Value 3 of x0 has no partner; value 0 of x1 has none either.
    assert_eq!(b.propagate_chirho(&domains, &only_binary), vec![0b0111, 0b1110]);
    assert_eq!(b.count_solutions_chirho(&domains, &only_binary), 3);
}

#[test]
fn backend_solve_limits_chirho() {
    let b = CpuBackendChirho::new_chirho();
    let domains = vec![0b111, 0b111, 0b111];
    let cs = vec![
        ConstraintChirho::NotEqualChirho { var_a_chirho: 0, var_b_chirho: 1 },
        ConstraintChirho::NotEqualChirho { var_a_chirho: 1, var_b_chirho: 2 },
        ConstraintChirho::NotEqualChirho { var_a_chirho: 0, var_b_chirho: 2 },
    ];
    let all = b.solve_chirho(&domains, &cs, 0);
    assert_eq!(all.len(), 6);
    for s in &all {
        let a = &s.assignments_chirho;
        assert!(a[0] != a[1] && a[1] != a[2] && a[0] != a[2]);
    }
    assert_eq!(b.solve_chirho(&domains, &cs, 4).len(), 4);
    assert_eq!(b.count_solutions_chirho(&domains, &cs), 6);
    assert!(b.is_satisfiable_chirho(&domains, &cs));
    let two = vec![0b11, 0b11, 0b11];
    assert!(!b.is_satisfiable_chirho(&two, &cs));
    assert_eq!(b.count_solutions_chirho(&two, &cs), 0);
    assert!(b.solve_chirho(&vec![0b1, 0], &[], 0).is_empty());
}

#[test]
fn backend_config_chirho() {
    let c = BackendConfigChirho::new_chirho();
    assert!(!c.should_try_fpga_chirho(true));
    let c = c.check_env_chirho(true);
    assert!(c.should_try_fpga_chirho(true));
    assert!(!c.should_try_fpga_chirho(false));
    assert!(BackendConfigChirho::auto_chirho().should_try_fpga_chirho(false));
    assert!(!BackendConfigChirho::cpu_only_chirho().prefer_fpga_chirho(false).should_try_fpga_chirho(false));
    assert_eq!(BackendConfigChirho::default().fpga_slot_chirho(3).slot_chirho(), 3);
    let h = HbmConfigChirho::default();
    assert_eq!(h.min_batch_size_chirho, 100);
    assert_eq!(h.output_offset_chirho, 0x0100_0000);
}

#[test]
fn test_propagate_keeps_unrelated_domain_chirho() {
    let backend_chirho = CpuBackendChirho::new_chirho();
    let domains_chirho = vec![0b01, 0b10, 0b11];
    let constraints_chirho = vec![ConstraintChirho::EqualChirho { var_a_chirho: 0, var_b_chirho: 1 }];
    let r_chirho = backend_chirho.propagate_chirho(&domains_chirho, &constraints_chirho);
    assert_eq!(r_chirho, vec![0, 0, 0b11]);
}

#[test]
fn test_propagate_idempotent_chirho() {
    let backend_chirho = CpuBackendChirho::new_chirho();
    let domains_chirho = vec![0b0111, 0b0011, 0b0100];
    let constraints_chirho = vec![
        ConstraintChirho::NotEqualChirho { var_a_chirho: 0, var_b_chirho: 2 },
        ConstraintChirho::EqualChirho { var_a_chirho: 0, var_b_chirho: 1 },
    ];
    let once_chirho = backend_chirho.propagate_chirho(&domains_chirho, &constraints_chirho);
    let twice_chirho = backend_chirho.propagate_chirho(&once_chirho, &constraints_chirho);
    assert_eq!(once_chirho, vec![0b0011, 0b0011, 0b0100]);
    assert_eq!(twice_chirho, once_chirho);
}

#[test]
fn test_binary_on_one_variable_chirho() {
    let backend_chirho = CpuBackendChirho::new_chirho();
    let constraints_chirho = vec![ConstraintChirho::BinaryChirho {
        var_a_chirho: 0,
        var_b_chirho: 0,
        allowed_pairs_chirho: vec![0b010, 0b010, 0],
    }];
    let r_chirho = backend_chirho.propagate_chirho(&vec![0b111], &constraints_chirho);
    assert_eq!(r_chirho, vec![0b010]);
    let sols_chirho = backend_chirho.solve_chirho(&vec![0b111], &constraints_chirho, 0);
    assert_eq!(sols_chirho.len(), 1);
    assert_eq!(sols_chirho[0].assignments_chirho, vec![1]);
    assert!(backend_chirho.is_satisfiable_chirho(&vec![0b111], &constraints_chirho));
    let none_chirho = vec![ConstraintChirho::BinaryChirho {
        var_a_chirho: 0,
        var_b_chirho: 0,
        allowed_pairs_chirho: vec![0b10, 0b01],
    }];
    assert!(!backend_chirho.is_satisfiable_chirho(&vec![0b11], &none_chirho));
}
