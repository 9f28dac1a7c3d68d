use minikanren_1bit_chirho::gpu_batch::{GpuBatchChirho, GpuStateChirho, UNIFY_SHADER_CHIRHO};

#[test]
fn test_gpu_state_unify_chirho() {
    let mut state_chirho = GpuStateChirho::new_chirho(0);
    state_chirho.domains_chirho[0] = 0b1111;
    state_chirho.domains_chirho[1] = 0b1100;
    state_chirho.unify_kernel_chirho(0, 1);
    assert_eq!(state_chirho.domains_chirho[0], 0b1100);
    assert_eq!(state_chirho.domains_chirho[1], 0b1100);
    assert_eq!(state_chirho.valid_chirho, 1);
}

#[test]
fn test_gpu_batch_fork_chirho() {
    let mut batch_chirho = GpuBatchChirho::new_chirho(100);
    let mut state_chirho = GpuStateChirho::new_chirho(1);
    state_chirho.domains_chirho[0] = 0b111;
    batch_chirho.add_state_chirho(state_chirho);
    let forked_chirho = batch_chirho.parallel_fork_chirho(0);
    assert_eq!(forked_chirho.states_chirho.len(), 2);
    assert_eq!(forked_chirho.states_chirho[0].domains_chirho[0], 0b001);
    assert_eq!(forked_chirho.states_chirho[1].domains_chirho[0], 0b110);
}

#[test]
fn test_gpu_parallel_unify_chirho() {
    let mut batch_chirho = GpuBatchChirho::new_chirho(100);
    for i_chirho in 0..10 {
        let mut state_chirho = GpuStateChirho::new_chirho(i_chirho);
        state_chirho.domains_chirho[0] = 0b1111 << i_chirho;
        state_chirho.domains_chirho[1] = 0b0011 << i_chirho;
        batch_chirho.add_state_chirho(state_chirho);
    }
    batch_chirho.parallel_unify_chirho(0, 1);
    for state_chirho in &batch_chirho.states_chirho {
        assert_eq!(state_chirho.domains_chirho[0], state_chirho.domains_chirho[1]);
    }
}

#[test]
fn gpu_failure_compaction_and_solutions() {
    let mut batch = GpuBatchChirho::new_chirho(3);
    let mut a = GpuStateChirho::new_chirho(7);
    a.domains_chirho[2] = 0b1;
    let mut b = GpuStateChirho::new_chirho(8);
    b.domains_chirho[2] = 0b10;
    assert!(batch.add_state_chirho(a));
    assert!(batch.add_state_chirho(b));
    assert!(batch.add_state_chirho(a));
    assert!(!batch.add_state_chirho(b));
    batch.parallel_constrain_chirho(2, 1);
    assert_eq!(batch.count_valid_chirho(), 1);
    batch.compact_chirho();
    assert_eq!(batch.states_chirho.len(), 1);
    assert_eq!(batch.states_chirho[0].id_chirho, 8);
    assert_eq!(batch.count_solved_chirho(), 0);
    for v in 0..8 {
        if v != 2 {
            batch.parallel_constrain_chirho(v, v as u32 + 3);
        }
    }
    assert_eq!(batch.count_solved_chirho(), 1);
    assert_eq!(batch.get_solutions_chirho(), vec![[3, 4, 1, 6, 7, 8, 9, 10]]);
    let mut s = GpuStateChirho::new_chirho(0);
    s.constrain_kernel_chirho(9, 1);
    s.unify_kernel_chirho(0, 8);
    assert_eq!(s.domains_chirho[0], u64::MAX);
    s.domains_chirho[3] = 0b100;
    s.domains_chirho[4] = 0b011;
    s.unify_kernel_chirho(3, 4);
    assert_eq!(s.valid_chirho, 0);
    assert_eq!(s.domains_chirho[3], 0);
    let fork = GpuBatchChirho { states_chirho: vec![s], capacity_chirho: 1 }.parallel_fork_chirho(0);
    assert_eq!(fork.states_chirho.len(), 0);
    assert_eq!(fork.capacity_chirho, 2);
    assert!(UNIFY_SHADER_CHIRHO.contains("unify_kernel"));
}
