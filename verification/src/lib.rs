//! Bit-parallel miniKanren building blocks: bit-vector domains, hierarchical
//! domains, packed bit matrices, hardware-style search states and the
//! symbolic and cofinite domain representations used by the solvers.

pub mod bits;
pub mod hardware;
pub mod hardware_state;
pub mod optics_hw;
pub mod hierarchical;
pub mod bitmatrix_packed;
pub mod constraint;
pub mod relation;
pub mod bitmatrix;
pub mod complement;
pub mod hw_symbolic;
pub mod symbolic;
pub mod paged;
pub mod gpu_batch;
pub mod hybrid;
pub mod backend;
pub mod fpga_control;
pub mod contraction;
pub mod contraction_learn;
pub mod elimination;
pub mod egraph_data;
pub mod closure_plan;
pub mod hw_goals;
pub mod relations;
pub mod fused;
pub mod adaptive;
pub mod reach;
pub mod recursion;
pub mod slg;
pub mod counting;
pub mod union_find;
pub mod egraph_native;
