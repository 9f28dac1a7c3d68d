use minikanren_1bit_chirho::fused::{BramConfigChirho, FusedConfigChirho, FusedGpuEngineChirho};

#[test]
fn test_bram_config_chirho() {
    let config_chirho = BramConfigChirho::ice40_hx8k_chirho();
    assert_eq!(config_chirho.bram_blocks_chirho, 32);
    assert!(config_chirho.max_terms_chirho > 0);
}

#[test]
fn fused_configs_chirho() {
    let c = FusedConfigChirho::default();
    assert_eq!(c.max_states_chirho, 65536);
    let e = FusedGpuEngineChirho::new_chirho(c);
    assert_eq!(e.config_chirho.num_vars_chirho, 64);
    assert_eq!(BramConfigChirho::artix7_chirho().max_terms_chirho, 4096);
}
