//! The decisions of the FPGA backend: which bitstream versions it accepts,
//! when the HBM batch path is used, how a command is packed into registers,
//! how batch input is laid out, and the propagation it runs on the host (the
//! device only accelerates the bit operations; binary constraints are not
//! propagated there).
use vstd::prelude::*;
use crate::backend::{
    constraints_ok, propagate_domains_chirho, propagated, search_post, solve_domains_chirho, ConstraintChirho,
    HbmConfigChirho, SolutionChirho,
};

verus! {

/// Bitstream version 5.4 of the solver.
pub open spec fn version_v54() -> u32 {
    0xF254_0001
}

/// Bitstream version 5.5 of the solver.
pub open spec fn version_v55() -> u32 {
    0xF255_0001
}

/// Whether a connection is accepted: always in mock mode, otherwise for
/// versions 5.4 and 5.5 and any version with the `0xF2` family prefix.
pub fn version_accepted_chirho(mock_chirho: bool, version_chirho: u32) -> (r: bool)
    ensures
        r == (mock_chirho || version_chirho == version_v54() || version_chirho == version_v55() || (version_chirho
            & 0xFF00_0000u32) == 0xF200_0000u32),
{
    mock_chirho || version_chirho == 0xF254_0001u32 || version_chirho == 0xF255_0001u32 || (version_chirho
        & 0xFF00_0000u32) == 0xF200_0000u32
}

/// The version recorded for a connection: version 5.5 in mock mode, the one
/// read from the device otherwise.
pub fn recorded_version_chirho(mock_chirho: bool, version_chirho: u32) -> (r: u32)
    ensures
        r == if mock_chirho { version_v55() } else { version_chirho },
{
    if mock_chirho {
        0xF255_0001u32
    } else {
        version_chirho
    }
}

/// HBM batch mode is available in mock mode, or when the status register
/// reports HBM ready and the HBM window is mapped.
pub fn hbm_available_decision_chirho(status_chirho: u32, hbm_mapped_chirho: bool, mock_chirho: bool) -> (r: bool)
    ensures
        r == (((status_chirho & 0x04u32) != 0 && hbm_mapped_chirho) || mock_chirho),
{
    ((status_chirho & 0x04u32) != 0 && hbm_mapped_chirho) || mock_chirho
}

/// A batch goes through HBM when HBM is available and the batch is at least
/// the configured minimum.
pub fn use_hbm_batch_chirho(hbm_available_chirho: bool, batch_size_chirho: usize, config_chirho: &HbmConfigChirho) -> (r: bool)
    ensures
        r == (hbm_available_chirho && batch_size_chirho >= config_chirho.min_batch_size_chirho),
{
    hbm_available_chirho && batch_size_chirho >= config_chirho.min_batch_size_chirho
}

/// Pack a command into the three command registers: the low 32 bits of each
/// operand, and the 4-bit operation code.
pub fn pack_cmd_chirho(op_chirho: u8, domain_a_chirho: u64, domain_b_chirho: u64) -> (r: (u32, u32, u32))
    ensures
        r.0 == domain_a_chirho % 0x1_0000_0000,
        r.1 == domain_b_chirho % 0x1_0000_0000,
        r.2 == op_chirho % 16,
{
    let lo = (domain_a_chirho & 0xFFFF_FFFFu64) as u32;
    let mid = (domain_b_chirho & 0xFFFF_FFFFu64) as u32;
    let hi = (op_chirho & 0x0Fu8) as u32;
    proof {
        assert(domain_a_chirho & 0xFFFF_FFFFu64 == domain_a_chirho % 0x1_0000_0000) by (bit_vector);
        assert(domain_b_chirho & 0xFFFF_FFFFu64 == domain_b_chirho % 0x1_0000_0000) by (bit_vector);
        assert(op_chirho & 0x0Fu8 == op_chirho % 16) by (bit_vector);
    }
    (lo, mid, hi)
}

/// Batch input as the device reads it: the two operands of each pair in turn.
pub fn interleave_pairs_chirho(pairs_chirho: &[(u64, u64)]) -> (r: Vec<u64>)
    requires
        pairs_chirho@.len() * 2 <= usize::MAX,
    ensures
        r@.len() == 2 * pairs_chirho@.len(),
        forall|i: int|
            0 <= i < pairs_chirho@.len() ==> r@[2 * i] == (#[trigger] pairs_chirho@[i]).0 && r@[2 * i + 1]
                == pairs_chirho@[i].1,
{
    let mut out: Vec<u64> = Vec::new();
    let mut i: usize = 0;
    while i < pairs_chirho.len()
        invariant
            i <= pairs_chirho@.len(),
            out@.len() == 2 * i,
            forall|j: int|
                0 <= j < i ==> out@[2 * j] == (#[trigger] pairs_chirho@[j]).0 && out@[2 * j + 1] == pairs_chirho@[j].1,
        decreases pairs_chirho@.len() - i,
    {
        let (a, b) = pairs_chirho[i];
        out.push(a);
        out.push(b);
        i = i + 1;
    }
    out
}

/// The constraints other than binary ones, in order.
pub open spec fn non_binary(cs: Seq<ConstraintChirho>) -> Seq<ConstraintChirho>
    decreases cs.len(),
{
    if cs.len() == 0 {
        Seq::empty()
    } else {
        let rest = non_binary(cs.drop_last());
        if cs.last() is BinaryChirho {
            rest
        } else {
            rest.push(cs.last())
        }
    }
}

/// Every constraint other than a binary one is well formed for `n` variables.
pub open spec fn non_binary_ok(cs: Seq<ConstraintChirho>, n: int) -> bool {
    forall|k: int| 0 <= k < cs.len() && !(cs[k] is BinaryChirho) ==> crate::backend::cons_ok(#[trigger] cs[k], n)
}

proof fn lemma_non_binary_ok(cs: Seq<ConstraintChirho>, n: int)
    requires
        non_binary_ok(cs, n),
    ensures
        constraints_ok(non_binary(cs), n),
        forall|k: int| 0 <= k < non_binary(cs).len() ==> !(#[trigger] non_binary(cs)[k] is BinaryChirho),
    decreases cs.len(),
{
    if cs.len() > 0 {
        assert(non_binary_ok(cs.drop_last(), n)) by {
            assert forall|k: int| 0 <= k < cs.drop_last().len() && !(cs.drop_last()[k] is BinaryChirho) implies crate::backend::cons_ok(
                #[trigger] cs.drop_last()[k],
                n,
            ) by {
                assert(cs.drop_last()[k] == cs[k]);
            }
        }
        lemma_non_binary_ok(cs.drop_last(), n);
    }
}

/// The constraints other than binary ones, in order.
fn non_binary_list_chirho(constraints_chirho: &[ConstraintChirho], Ghost(n): Ghost<int>) -> (r: Vec<ConstraintChirho>)
    requires
        non_binary_ok(constraints_chirho@, n),
    ensures
        r@ == non_binary(constraints_chirho@),
        constraints_ok(r@, n),
{
    let mut kept: Vec<ConstraintChirho> = Vec::new();
    let mut i: usize = 0;
    while i < constraints_chirho.len()
        invariant
            i <= constraints_chirho@.len(),
            kept@ == non_binary(constraints_chirho@.take(i as int)),
        decreases constraints_chirho@.len() - i,
    {
        proof {
            assert(constraints_chirho@.take(i + 1).drop_last() =~= constraints_chirho@.take(i as int));
        }
        match &constraints_chirho[i] {
            ConstraintChirho::EqualChirho { var_a_chirho, var_b_chirho } => {
                kept.push(ConstraintChirho::EqualChirho { var_a_chirho: *var_a_chirho, var_b_chirho: *var_b_chirho });
            },
            ConstraintChirho::NotEqualChirho { var_a_chirho, var_b_chirho } => {
                kept.push(ConstraintChirho::NotEqualChirho { var_a_chirho: *var_a_chirho, var_b_chirho: *var_b_chirho });
            },
            ConstraintChirho::FixedChirho { var_chirho, value_chirho } => {
                kept.push(ConstraintChirho::FixedChirho { var_chirho: *var_chirho, value_chirho: *value_chirho });
            },
            ConstraintChirho::BinaryChirho { .. } => {},
        }
        i = i + 1;
    }
    proof {
        assert(constraints_chirho@.take(i as int) =~= constraints_chirho@);
        lemma_non_binary_ok(constraints_chirho@, n);
    }
    kept
}

/// Propagation as the FPGA backend runs it: the rules of the CPU propagation
/// for equality, disequality and fixed values, applied until nothing changes;
/// binary constraints are left out.
pub fn propagate_primitive_chirho(domains_chirho: &Vec<u64>, constraints_chirho: &[ConstraintChirho]) -> (r: Vec<u64>)
    requires
        non_binary_ok(constraints_chirho@, domains_chirho.len() as int),
    ensures
        propagated(domains_chirho@, non_binary(constraints_chirho@), r@),
{
    let kept = non_binary_list_chirho(constraints_chirho, Ghost(domains_chirho.len() as int));
    propagate_domains_chirho(domains_chirho, kept.as_slice())
}

/// Search as the FPGA backend runs it: complete search with the propagation
/// above, so binary constraints are not enforced; at most `max_chirho`
/// solutions (`0`: all of them).
pub fn solve_primitive_chirho(domains_chirho: &Vec<u64>, constraints_chirho: &[ConstraintChirho], max_chirho: usize)
    -> (r: Vec<SolutionChirho>)
    requires
        non_binary_ok(constraints_chirho@, domains_chirho.len() as int),
    ensures
        search_post(domains_chirho@, non_binary(constraints_chirho@), Seq::empty(), r@, max_chirho),
{
    let kept = non_binary_list_chirho(constraints_chirho, Ghost(domains_chirho.len() as int));
    solve_domains_chirho(domains_chirho, kept.as_slice(), max_chirho)
}

} // verus!
