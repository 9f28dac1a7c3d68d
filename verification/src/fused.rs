//! Configurations of the fused GPU pipeline and of the FPGA block-RAM design.

use vstd::prelude::*;

verus! {

/// Limits of the fused GPU pipeline.
#[derive(Debug, Clone, Copy)]
pub struct FusedConfigChirho {
    /// Terms the GPU term store holds.
    pub max_terms_chirho: u32,
    /// Search states run in parallel.
    pub max_states_chirho: u32,
    /// Variables per state.
    pub num_vars_chirho: u32,
}

impl Default for FusedConfigChirho {
    fn default() -> (r: Self)
        ensures
            r.max_terms_chirho == 1_000_000,
            r.max_states_chirho == 65536,
            r.num_vars_chirho == 64,
    {
        Self { max_terms_chirho: 1_000_000, max_states_chirho: 65536, num_vars_chirho: 64 }
    }
}

/// The fused GPU engine (its configuration).
#[derive(Debug)]
pub struct FusedGpuEngineChirho {
    pub config_chirho: FusedConfigChirho,
}

impl FusedGpuEngineChirho {
    /// An engine with the given configuration.
    pub fn new_chirho(config_chirho: FusedConfigChirho) -> (r: Self)
        ensures
            r.config_chirho == config_chirho,
    {
        Self { config_chirho }
    }
}

/// Block-RAM budget of an FPGA design.
#[derive(Debug, Clone, Copy)]
pub struct BramConfigChirho {
    /// Block-RAM blocks available.
    pub bram_blocks_chirho: u32,
    /// Terms that fit in block RAM.
    pub max_terms_chirho: u32,
    /// Variables supported.
    pub num_vars_chirho: u32,
}

impl BramConfigChirho {
    /// iCE40 HX8K: 32 blocks of 4 Kb, 128 bits per term.
    pub fn ice40_hx8k_chirho() -> (r: Self)
        ensures
            r.bram_blocks_chirho == 32,
            r.max_terms_chirho == 1024,
            r.num_vars_chirho == 8,
    {
        Self { bram_blocks_chirho: 32, max_terms_chirho: 1024, num_vars_chirho: 8 }
    }

    /// Artix-7.
    pub fn artix7_chirho() -> (r: Self)
        ensures
            r.bram_blocks_chirho == 135,
            r.max_terms_chirho == 4096,
            r.num_vars_chirho == 32,
    {
        Self { bram_blocks_chirho: 135, max_terms_chirho: 4096, num_vars_chirho: 32 }
    }
}

} // verus!
