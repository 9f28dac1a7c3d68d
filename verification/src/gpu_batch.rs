//! Search states laid out for data-parallel execution: eight 64-bit domains
//! and a validity flag per state, and batches of states on which unification,
//! constraining, compaction and forking run state by state.

use vstd::prelude::*;
use crate::bits::{bit64, lemma_and_bits, lemma_shl_bits, lemma_zero_iff_no_bits, lemma_clear_lowest, lemma_xor_bits};
use crate::hardware::is_single64;
use vstd::std_specs::bits::u64_trailing_zeros;
use vstd::array::spec_array_update;

verus! {

broadcast use vstd::array::group_array_axioms;

/// One search state: eight variable domains, a validity flag and an id.
#[derive(Debug, Clone, Copy)]
pub struct GpuStateChirho {
    /// Variable domains (bit `v` of a domain: value `v` is still possible).
    pub domains_chirho: [u64; 8],
    /// Zero once the state has failed.
    pub valid_chirho: u32,
    /// Identifier used to follow a state through forks.
    pub id_chirho: u32,
}

/// The state after unifying `v1` with `v2` (nothing changes for a failed
/// state or a variable past 7).
pub open spec fn unify_spec(s: GpuStateChirho, v1: int, v2: int) -> GpuStateChirho {
    if 0 <= v1 < 8 && 0 <= v2 < 8 && s.valid_chirho != 0 {
        let r = s.domains_chirho[v1] & s.domains_chirho[v2];
        GpuStateChirho {
            domains_chirho: spec_array_update(spec_array_update(s.domains_chirho, v1, r), v2, r),
            valid_chirho: if r == 0 { 0 } else { s.valid_chirho },
            id_chirho: s.id_chirho,
        }
    } else {
        s
    }
}

/// The state after constraining `var` to the value `val` (nothing changes for
/// a failed state, a variable past 7 or a value past 63).
pub open spec fn constrain_spec(s: GpuStateChirho, var: int, val: int) -> GpuStateChirho {
    if 0 <= var < 8 && 0 <= val < 64 && s.valid_chirho != 0 {
        let r = s.domains_chirho[var] & (1u64 << (val as u64));
        GpuStateChirho {
            domains_chirho: spec_array_update(s.domains_chirho, var, r),
            valid_chirho: if r == 0 { 0 } else { s.valid_chirho },
            id_chirho: s.id_chirho,
        }
    } else {
        s
    }
}

/// Every variable of the state has exactly one value.
pub open spec fn all_single(s: GpuStateChirho) -> bool {
    forall|j: int| 0 <= j < 8 ==> #[trigger] is_single64(s.domains_chirho[j])
}

/// The valid states whose variables all have one value.
pub open spec fn solved(states: Seq<GpuStateChirho>) -> Seq<GpuStateChirho> {
    states.filter(|s: GpuStateChirho| s.valid_chirho != 0 && all_single(s))
}

/// The states a fork on `var` makes of `s`: first the state keeping only the
/// lowest value, then the state keeping the others (each only when non-empty).
pub open spec fn fork_one(s: GpuStateChirho, var: int) -> Seq<GpuStateChirho> {
    if s.valid_chirho == 0 || var >= 8 || s.domains_chirho[var] == 0 {
        Seq::empty()
    } else {
        let d = s.domains_chirho[var];
        let low = d & (!d + 1) as u64;
        let rest = d & (d - 1) as u64;
        let with = GpuStateChirho {
            domains_chirho: spec_array_update(s.domains_chirho, var, low),
            valid_chirho: s.valid_chirho,
            id_chirho: (s.id_chirho * 2) as u32,
        };
        let without = GpuStateChirho {
            domains_chirho: spec_array_update(s.domains_chirho, var, rest),
            valid_chirho: s.valid_chirho,
            id_chirho: (s.id_chirho * 2 + 1) as u32,
        };
        if rest == 0 { seq![with] } else { seq![with, without] }
    }
}

/// The forks of the first `n` states, in order.
pub open spec fn fork_all(states: Seq<GpuStateChirho>, var: int, n: nat) -> Seq<GpuStateChirho>
    decreases n,
{
    if n == 0 { Seq::empty() } else { fork_all(states, var, (n - 1) as nat) + fork_one(states[n - 1], var) }
}

proof fn lemma_fork_all_len(states: Seq<GpuStateChirho>, var: int, n: nat)
    ensures
        fork_all(states, var, n).len() <= 2 * n,
    decreases n,
{
    if n > 0 {
        lemma_fork_all_len(states, var, (n - 1) as nat);
    }
}

impl GpuStateChirho {
    /// Every value possible for every variable.
    pub fn new_chirho(id_chirho: u32) -> (r: Self)
        ensures
            forall|j: int| 0 <= j < 8 ==> #[trigger] r.domains_chirho[j] == u64::MAX,
            r.valid_chirho == 1,
            r.id_chirho == id_chirho,
    {
        Self { domains_chirho: [u64::MAX; 8], valid_chirho: 1, id_chirho }
    }

    /// Unify two variables: both get the values they share; the state fails
    /// when none is shared.
    pub fn unify_kernel_chirho(&mut self, var1_chirho: usize, var2_chirho: usize)
        ensures
            *final(self) == unify_spec(*old(self), var1_chirho as int, var2_chirho as int),
    {
        if var1_chirho < 8 && var2_chirho < 8 && self.valid_chirho != 0 {
            let result = self.domains_chirho[var1_chirho] & self.domains_chirho[var2_chirho];
            self.domains_chirho[var1_chirho] = result;
            self.domains_chirho[var2_chirho] = result;
            if result == 0 {
                self.valid_chirho = 0;
            }
            proof {
                assert(self.domains_chirho =~= spec_array_update(spec_array_update(old(self).domains_chirho, var1_chirho as int, result), var2_chirho as int, result));
            }
        }
    }

    /// Keep only the value `val` for `var`; the state fails when it was not possible.
    pub fn constrain_kernel_chirho(&mut self, var_chirho: usize, val_chirho: u32)
        ensures
            *final(self) == constrain_spec(*old(self), var_chirho as int, val_chirho as int),
    {
        if var_chirho < 8 && val_chirho < 64 && self.valid_chirho != 0 {
            let mask = 1u64 << val_chirho;
            let d = self.domains_chirho[var_chirho] & mask;
            self.domains_chirho[var_chirho] = d;
            if d == 0 {
                self.valid_chirho = 0;
            }
            proof {
                assert(self.domains_chirho =~= spec_array_update(old(self).domains_chirho, var_chirho as int, d));
            }
        }
    }
}

/// A bounded batch of search states.
#[derive(Debug, Clone)]
pub struct GpuBatchChirho {
    pub states_chirho: Vec<GpuStateChirho>,
    pub capacity_chirho: usize,
}

impl GpuBatchChirho {
    /// An empty batch with room for `capacity` states.
    pub fn new_chirho(capacity_chirho: usize) -> (r: Self)
        ensures
            r.states_chirho@ == Seq::<GpuStateChirho>::empty(),
            r.capacity_chirho == capacity_chirho,
    {
        Self { states_chirho: Vec::with_capacity(capacity_chirho), capacity_chirho }
    }

    /// Add a state when there is room; true when it was added.
    pub fn add_state_chirho(&mut self, state_chirho: GpuStateChirho) -> (r: bool)
        ensures
            r == (old(self).states_chirho.len() < old(self).capacity_chirho),
            final(self).capacity_chirho == old(self).capacity_chirho,
            final(self).states_chirho@ == if r { old(self).states_chirho@.push(state_chirho) } else { old(self).states_chirho@ },
    {
        if self.states_chirho.len() < self.capacity_chirho {
            self.states_chirho.push(state_chirho);
            true
        } else {
            false
        }
    }

    /// Unify `var1` with `var2` in every state.
    pub fn parallel_unify_chirho(&mut self, var1_chirho: usize, var2_chirho: usize)
        ensures
            final(self).capacity_chirho == old(self).capacity_chirho,
            final(self).states_chirho@ == old(self).states_chirho@.map_values(
                |s: GpuStateChirho| unify_spec(s, var1_chirho as int, var2_chirho as int),
            ),
    {
        let mut i: usize = 0;
        while i < self.states_chirho.len()
            invariant
                i <= self.states_chirho.len() == old(self).states_chirho.len(),
                self.capacity_chirho == old(self).capacity_chirho,
                forall|k: int| 0 <= k < i ==> #[trigger] self.states_chirho@[k] == unify_spec(old(self).states_chirho@[k], var1_chirho as int, var2_chirho as int),
                forall|k: int| i <= k < self.states_chirho.len() ==> #[trigger] self.states_chirho@[k] == old(self).states_chirho@[k],
            decreases self.states_chirho.len() - i,
        {
            let mut s = self.states_chirho[i];
            s.unify_kernel_chirho(var1_chirho, var2_chirho);
            self.states_chirho.set(i, s);
            i = i + 1;
        }
        assert(self.states_chirho@ =~= old(self).states_chirho@.map_values(
            |s: GpuStateChirho| unify_spec(s, var1_chirho as int, var2_chirho as int),
        ));
    }

    /// Constrain `var` to `val` in every state.
    pub fn parallel_constrain_chirho(&mut self, var_chirho: usize, val_chirho: u32)
        ensures
            final(self).capacity_chirho == old(self).capacity_chirho,
            final(self).states_chirho@ == old(self).states_chirho@.map_values(
                |s: GpuStateChirho| constrain_spec(s, var_chirho as int, val_chirho as int),
            ),
    {
        let mut i: usize = 0;
        while i < self.states_chirho.len()
            invariant
                i <= self.states_chirho.len() == old(self).states_chirho.len(),
                self.capacity_chirho == old(self).capacity_chirho,
                forall|k: int| 0 <= k < i ==> #[trigger] self.states_chirho@[k] == constrain_spec(old(self).states_chirho@[k], var_chirho as int, val_chirho as int),
                forall|k: int| i <= k < self.states_chirho.len() ==> #[trigger] self.states_chirho@[k] == old(self).states_chirho@[k],
            decreases self.states_chirho.len() - i,
        {
            let mut s = self.states_chirho[i];
            s.constrain_kernel_chirho(var_chirho, val_chirho);
            self.states_chirho.set(i, s);
            i = i + 1;
        }
        assert(self.states_chirho@ =~= old(self).states_chirho@.map_values(
            |s: GpuStateChirho| constrain_spec(s, var_chirho as int, val_chirho as int),
        ));
    }

    /// Drop the failed states, keeping the order of the others.
    pub fn compact_chirho(&mut self)
        ensures
            final(self).capacity_chirho == old(self).capacity_chirho,
            final(self).states_chirho@ == old(self).states_chirho@.filter(|s: GpuStateChirho| s.valid_chirho != 0),
    {
        let mut kept: Vec<GpuStateChirho> = Vec::new();
        let mut i: usize = 0;
        while i < self.states_chirho.len()
            invariant
                i <= self.states_chirho.len(),
                self.states_chirho@ == old(self).states_chirho@,
                self.capacity_chirho == old(self).capacity_chirho,
                kept@ == self.states_chirho@.subrange(0, i as int).filter(|s: GpuStateChirho| s.valid_chirho != 0),
            decreases self.states_chirho.len() - i,
        {
            let s = self.states_chirho[i];
            proof {
                assert(self.states_chirho@.subrange(0, i + 1) == self.states_chirho@.subrange(0, i as int).push(s));
                self.states_chirho@.subrange(0, i as int).lemma_filter_push(s, |s: GpuStateChirho| s.valid_chirho != 0);
            }
            if s.valid_chirho != 0 {
                kept.push(s);
            }
            i = i + 1;
        }
        assert(self.states_chirho@.subrange(0, self.states_chirho.len() as int) == self.states_chirho@);
        self.states_chirho = kept;
    }

    /// Fork every valid state on `var` into its lowest value and the rest; the
    /// new batch has twice the capacity.
    pub fn parallel_fork_chirho(&self, var_chirho: usize) -> (r: GpuBatchChirho)
        requires
            self.capacity_chirho <= usize::MAX / 2,
            forall|k: int| 0 <= k < self.states_chirho.len() ==> (#[trigger] self.states_chirho@[k]).id_chirho <= (u32::MAX - 1) / 2,
        ensures
            r.capacity_chirho == 2 * self.capacity_chirho,
            r.states_chirho.len() <= r.capacity_chirho || self.states_chirho.len() > self.capacity_chirho,
            self.states_chirho.len() <= self.capacity_chirho ==> r.states_chirho@ == fork_all(self.states_chirho@, var_chirho as int, self.states_chirho.len() as nat),
    {
        let mut new_batch = GpuBatchChirho::new_chirho(self.capacity_chirho * 2);
        let mut i: usize = 0;
        while i < self.states_chirho.len()
            invariant
                i <= self.states_chirho.len(),
                self.capacity_chirho <= usize::MAX / 2,
                new_batch.capacity_chirho == 2 * self.capacity_chirho,
                forall|k: int| 0 <= k < self.states_chirho.len() ==> (#[trigger] self.states_chirho@[k]).id_chirho <= (u32::MAX - 1) / 2,
                new_batch.states_chirho.len() <= 2 * i,
                self.states_chirho.len() <= self.capacity_chirho ==> new_batch.states_chirho@ == fork_all(self.states_chirho@, var_chirho as int, i as nat),
            decreases self.states_chirho.len() - i,
        {
            let state = self.states_chirho[i];
            let ghost before = new_batch.states_chirho@;
            proof {
                assert(self.states_chirho@[i as int] == state);
            }
            if state.valid_chirho == 0 || var_chirho >= 8 {
            } else {
                let domain = state.domains_chirho[var_chirho];
                if domain != 0 {
                    let neg = 0u64.wrapping_sub(domain);
                    let lowest = domain & neg;
                    let rest = domain & (domain - 1);
                    proof {
                        assert(neg == (!domain + 1) as u64) by (bit_vector)
                            requires
                                neg == (0 - domain + 0x1_0000_0000_0000_0000) as u64,
                                domain != 0,
                        ;
                    }
                    let mut with_state = state;
                    with_state.domains_chirho[var_chirho] = lowest;
                    with_state.id_chirho = state.id_chirho * 2;
                    proof {
                        assert(with_state.domains_chirho =~= spec_array_update(state.domains_chirho, var_chirho as int, lowest));
                        assert(lowest != 0) by (bit_vector)
                            requires
                                domain != 0,
                                lowest == domain & ((!domain + 1) as u64),
                        ;
                    }
                    if lowest != 0 {
                        new_batch.add_state_chirho(with_state);
                    }
                    if rest != 0 {
                        let mut without_state = state;
                        without_state.domains_chirho[var_chirho] = rest;
                        without_state.id_chirho = state.id_chirho * 2 + 1;
                        proof {
                            assert(without_state.domains_chirho =~= spec_array_update(state.domains_chirho, var_chirho as int, rest));
                        }
                        new_batch.add_state_chirho(without_state);
                    }
                }
            }
            proof {
                if self.states_chirho.len() <= self.capacity_chirho {
                    assert(new_batch.states_chirho@ =~= before + fork_one(state, var_chirho as int));
                }
            }
            i = i + 1;
        }
        proof {
            lemma_fork_all_len(self.states_chirho@, var_chirho as int, self.states_chirho.len() as nat);
        }
        new_batch
    }

    /// Number of valid states.
    pub fn count_valid_chirho(&self) -> (r: usize)
        ensures
            r == self.states_chirho@.filter(|s: GpuStateChirho| s.valid_chirho != 0).len(),
    {
        let mut count: usize = 0;
        let mut i: usize = 0;
        while i < self.states_chirho.len()
            invariant
                i <= self.states_chirho.len(),
                count == self.states_chirho@.subrange(0, i as int).filter(|s: GpuStateChirho| s.valid_chirho != 0).len(),
                count <= i,
            decreases self.states_chirho.len() - i,
        {
            let s = self.states_chirho[i];
            proof {
                assert(self.states_chirho@.subrange(0, i + 1) == self.states_chirho@.subrange(0, i as int).push(s));
                self.states_chirho@.subrange(0, i as int).lemma_filter_push(s, |s: GpuStateChirho| s.valid_chirho != 0);
            }
            if s.valid_chirho != 0 {
                count = count + 1;
            }
            i = i + 1;
        }
        assert(self.states_chirho@.subrange(0, self.states_chirho.len() as int) == self.states_chirho@);
        count
    }

    /// Number of valid states whose variables all have one value.
    pub fn count_solved_chirho(&self) -> (r: usize)
        ensures
            r == solved(self.states_chirho@).len(),
    {
        let mut count: usize = 0;
        let mut i: usize = 0;
        while i < self.states_chirho.len()
            invariant
                i <= self.states_chirho.len(),
                count == solved(self.states_chirho@.subrange(0, i as int)).len(),
                count <= i,
            decreases self.states_chirho.len() - i,
        {
            let s = self.states_chirho[i];
            proof {
                assert(self.states_chirho@.subrange(0, i + 1) == self.states_chirho@.subrange(0, i as int).push(s));
                self.states_chirho@.subrange(0, i as int).lemma_filter_push(s, |s: GpuStateChirho| s.valid_chirho != 0 && all_single(s));
            }
            if s.valid_chirho != 0 && Self::all_single_chirho(&s) {
                count = count + 1;
            }
            i = i + 1;
        }
        assert(self.states_chirho@.subrange(0, self.states_chirho.len() as int) == self.states_chirho@);
        count
    }

    fn all_single_chirho(s: &GpuStateChirho) -> (r: bool)
        ensures
            r == all_single(*s),
    {
        let mut j: usize = 0;
        while j < 8
            invariant
                j <= 8,
                forall|k: int| 0 <= k < j ==> #[trigger] is_single64(s.domains_chirho[k]),
            decreases 8 - j,
        {
            let d = s.domains_chirho[j];
            if !(d != 0 && (d & (d - 1)) == 0) {
                proof {
                    if d != 0 {
                        assert(d & (d - 1) as u64 != 0);
                    }
                    assert(!is_single64(s.domains_chirho[j as int]));
                }
                return false;
            }
            j = j + 1;
        }
        true
    }

    /// For each valid state whose variables all have one value, those values.
    pub fn get_solutions_chirho(&self) -> (r: Vec<[u32; 8]>)
        ensures
            r.len() == solved(self.states_chirho@).len(),
            forall|i: int, j: int| 0 <= i < r.len() && 0 <= j < 8 ==> #[trigger] r[i][j] == u64_trailing_zeros(
                solved(self.states_chirho@)[i].domains_chirho[j],
            ),
    {
        let mut out: Vec<[u32; 8]> = Vec::new();
        let mut i: usize = 0;
        while i < self.states_chirho.len()
            invariant
                i <= self.states_chirho.len(),
                out.len() == solved(self.states_chirho@.subrange(0, i as int)).len(),
                forall|a: int, j: int| 0 <= a < out.len() && 0 <= j < 8 ==> #[trigger] out[a][j] == u64_trailing_zeros(
                    solved(self.states_chirho@.subrange(0, i as int))[a].domains_chirho[j],
                ),
            decreases self.states_chirho.len() - i,
        {
            let s = self.states_chirho[i];
            let ghost prev = solved(self.states_chirho@.subrange(0, i as int));
            proof {
                assert(self.states_chirho@.subrange(0, i + 1) == self.states_chirho@.subrange(0, i as int).push(s));
                self.states_chirho@.subrange(0, i as int).lemma_filter_push(s, |s: GpuStateChirho| s.valid_chirho != 0 && all_single(s));
            }
            if s.valid_chirho != 0 && Self::all_single_chirho(&s) {
                let mut vals: [u32; 8] = [0u32; 8];
                let mut j: usize = 0;
                while j < 8
                    invariant
                        j <= 8,
                        forall|k: int| 0 <= k < j ==> #[trigger] vals[k] == u64_trailing_zeros(s.domains_chirho[k]),
                    decreases 8 - j,
                {
                    vals[j] = s.domains_chirho[j].trailing_zeros();
                    j = j + 1;
                }
                out.push(vals);
                proof {
                    let cur = solved(self.states_chirho@.subrange(0, i + 1));
                    assert(cur == prev.push(s));
                    assert forall|a: int, j: int| 0 <= a < out.len() && 0 <= j < 8 implies #[trigger] out[a][j] == u64_trailing_zeros(
                        cur[a].domains_chirho[j],
                    ) by {
                        if a < out.len() - 1 {
                            assert(cur[a] == prev[a]);
                        }
                    }
                }
            }
            i = i + 1;
        }
        assert(self.states_chirho@.subrange(0, self.states_chirho.len() as int) == self.states_chirho@);
        out
    }
}

/// The unification kernel in WGSL, for a WebGPU compute pipeline.
pub const UNIFY_SHADER_CHIRHO: &'static str = "// Unification kernel for WebGPU\n\nstruct State {\n    domains: array<u64, 8>,\n    valid: u32,\n    id: u32,\n}\n\n@group(0) @binding(0)\nvar<storage, read_write> states: array<State>;\n\n@group(0) @binding(1)\nvar<uniform> params: vec2<u32>;  // var1, var2\n\n@compute @workgroup_size(256)\nfn unify_kernel(@builtin(global_invocation_id) gid: vec3<u32>) {\n    let idx = gid.x;\n    if (idx >= arrayLength(&states)) {\n        return;\n    }\n\n    let var1 = params.x;\n    let var2 = params.y;\n\n    if (states[idx].valid == 0u) {\n        return;\n    }\n\n    let result = states[idx].domains[var1] & states[idx].domains[var2];\n    states[idx].domains[var1] = result;\n    states[idx].domains[var2] = result;\n\n    if (result == 0u64) {\n        states[idx].valid = 0u;\n    }\n}\n";


/// Unifying two variables of a live state gives both the values they share
/// and leaves every other variable alone; the state fails exactly when they
/// share none. A failed state, or a variable past 7, is left as it is.
pub proof fn lemma_unify_kernel_law(s: GpuStateChirho, v1: int, v2: int)
    ensures
        0 <= v1 < 8 && 0 <= v2 < 8 && s.valid_chirho != 0 ==> {
            let t = unify_spec(s, v1, v2);
            &&& t.domains_chirho[v1] == s.domains_chirho[v1] & s.domains_chirho[v2]
            &&& t.domains_chirho[v2] == s.domains_chirho[v1] & s.domains_chirho[v2]
            &&& forall|w: int| 0 <= w < 8 && w != v1 && w != v2 ==> #[trigger] t.domains_chirho[w] == s.domains_chirho[w]
            &&& (t.valid_chirho != 0 <==> (s.domains_chirho[v1] & s.domains_chirho[v2]) != 0)
            &&& t.id_chirho == s.id_chirho
        },
        !(0 <= v1 < 8 && 0 <= v2 < 8 && s.valid_chirho != 0) ==> unify_spec(s, v1, v2) == s,
{
    if 0 <= v1 < 8 && 0 <= v2 < 8 && s.valid_chirho != 0 {
        if v1 == v2 {
            let a = s.domains_chirho[v1];
            assert(a & a == a) by (bit_vector);
        }
    }
}

/// Forking a live state on a variable splits that variable's values among the
/// new states: each value of the domain is kept by exactly one of them (so a
/// non-empty domain never yields zero states), no new state is empty there,
/// and every other variable, and validity, are kept.
pub proof fn lemma_fork_one_law(s: GpuStateChirho, var: int)
    requires
        s.valid_chirho != 0,
        0 <= var < 8,
    ensures
        s.domains_chirho[var] == 0 <==> fork_one(s, var).len() == 0,
        fork_one(s, var).len() <= 2,
        forall|j: int| #[trigger] bit64(s.domains_chirho[var], j) ==> exists|k: int|
            0 <= k < fork_one(s, var).len() && bit64(#[trigger] fork_one(s, var)[k].domains_chirho[var], j),
        forall|k: int, j: int| 0 <= k < fork_one(s, var).len() && #[trigger] bit64(fork_one(s, var)[k].domains_chirho[var], j)
            ==> bit64(s.domains_chirho[var], j),
        forall|k1: int, k2: int, j: int|
            0 <= k1 < fork_one(s, var).len() && 0 <= k2 < fork_one(s, var).len() && k1 != k2 && #[trigger] bit64(
                fork_one(s, var)[k1].domains_chirho[var],
                j,
            ) ==> !#[trigger] bit64(fork_one(s, var)[k2].domains_chirho[var], j),
        forall|k: int| 0 <= k < fork_one(s, var).len() ==> {
            &&& (#[trigger] fork_one(s, var)[k]).domains_chirho[var] != 0
            &&& fork_one(s, var)[k].valid_chirho == s.valid_chirho
            &&& forall|w: int| 0 <= w < 8 && w != var ==> #[trigger] fork_one(s, var)[k].domains_chirho[w] == s.domains_chirho[w]
        },
{
    let d = s.domains_chirho[var];
    if d != 0 {
        lemma_clear_lowest(d);
        let t = u64_trailing_zeros(d) as u64;
        let low = d & (!d + 1) as u64;
        let rest = d & (d - 1) as u64;
        assert(low == d ^ rest) by (bit_vector)
            requires
                d != 0,
                low == d & ((!d + 1) as u64),
                rest == d & ((d - 1) as u64),
        ;
        assert forall|j: int| #[trigger] bit64(low, j) == (j == t) by {
            lemma_xor_bits(d, rest, j);
        }
        assert(low != 0) by {
            assert(bit64(low, t as int));
            lemma_zero_iff_no_bits(low);
        }
        let f = fork_one(s, var);
        assert(f[0].domains_chirho[var] == low);
        if rest != 0 {
            assert(f[1].domains_chirho[var] == rest);
        } else {
            lemma_zero_iff_no_bits(rest);
        }
        assert forall|j: int| #[trigger] bit64(s.domains_chirho[var], j) implies exists|k: int|
            0 <= k < fork_one(s, var).len() && bit64(#[trigger] fork_one(s, var)[k].domains_chirho[var], j) by {
            if j == t {
                assert(bit64(fork_one(s, var)[0].domains_chirho[var], j));
            } else {
                assert(bit64(rest, j));
                if rest == 0 {
                    lemma_zero_iff_no_bits(rest);
                }
                assert(bit64(fork_one(s, var)[1].domains_chirho[var], j));
            }
        }
    } else {
        lemma_zero_iff_no_bits(0);
    }
}


/// Forking a batch keeps every value of every live state: for each live
/// input state and each value of the forked variable, some output state holds
/// that value and agrees with the input state on every other variable.
pub proof fn lemma_fork_all_law(states: Seq<GpuStateChirho>, var: int, n: nat)
    requires
        0 <= var < 8,
        n <= states.len(),
    ensures
        forall|i: int, j: int|
            0 <= i < n && states[i].valid_chirho != 0 && #[trigger] bit64(states[i].domains_chirho[var], j) ==> exists|k: int|
                0 <= k < fork_all(states, var, n).len() && #[trigger] bit64(fork_all(states, var, n)[k].domains_chirho[var], j)
                    && forall|w: int| 0 <= w < 8 && w != var ==> fork_all(states, var, n)[k].domains_chirho[w] == states[i].domains_chirho[w],
    decreases n,
{
    if n > 0 {
        lemma_fork_all_law(states, var, (n - 1) as nat);
        let pre = fork_all(states, var, (n - 1) as nat);
        let one = fork_one(states[n - 1], var);
        let all = fork_all(states, var, n);
        assert(all == pre + one);
        assert forall|i: int, j: int|
            0 <= i < n && states[i].valid_chirho != 0 && #[trigger] bit64(states[i].domains_chirho[var], j) implies exists|k: int|
                0 <= k < all.len() && #[trigger] bit64(all[k].domains_chirho[var], j)
                    && forall|w: int| 0 <= w < 8 && w != var ==> all[k].domains_chirho[w] == states[i].domains_chirho[w] by {
            if i < n - 1 {
                let k = choose|k: int|
                    0 <= k < pre.len() && #[trigger] bit64(pre[k].domains_chirho[var], j)
                        && forall|w: int| 0 <= w < 8 && w != var ==> pre[k].domains_chirho[w] == states[i].domains_chirho[w];
                assert(all[k] == pre[k]);
            } else {
                lemma_fork_one_law(states[i], var);
                let k = choose|k: int| 0 <= k < one.len() && bit64(#[trigger] one[k].domains_chirho[var], j);
                assert(all[pre.len() + k] == one[k]);
                assert(forall|w: int| 0 <= w < 8 && w != var ==> #[trigger] one[k].domains_chirho[w] == states[i].domains_chirho[w]);
                assert(bit64(all[pre.len() + k].domains_chirho[var], j));
            }
        }
    }
}


/// Constraining a variable of a live state to a value below 64 leaves that
/// variable with at most that value, kept exactly when it was possible, and
/// every other variable alone; the state fails exactly when the value was not
/// possible. Otherwise the state is left as it is.
pub proof fn lemma_constrain_kernel_law(s: GpuStateChirho, var: int, val: int)
    ensures
        0 <= var < 8 && 0 <= val < 64 && s.valid_chirho != 0 ==> {
            let t = constrain_spec(s, var, val);
            &&& forall|j: int| #[trigger] bit64(t.domains_chirho[var], j) == (j == val && bit64(s.domains_chirho[var], val))
            &&& forall|w: int| 0 <= w < 8 && w != var ==> #[trigger] t.domains_chirho[w] == s.domains_chirho[w]
            &&& (t.valid_chirho != 0 <==> bit64(s.domains_chirho[var], val))
            &&& t.id_chirho == s.id_chirho
        },
        !(0 <= var < 8 && 0 <= val < 64 && s.valid_chirho != 0) ==> constrain_spec(s, var, val) == s,
{
    if 0 <= var < 8 && 0 <= val < 64 && s.valid_chirho != 0 {
        let d = s.domains_chirho[var];
        let m = 1u64 << (val as u64);
        let r = d & m;
        assert forall|j: int| #[trigger] bit64(r, j) == (j == val && bit64(d, val)) by {
            lemma_and_bits(d, m, j);
            lemma_shl_bits(val as u64, j);
        }
        lemma_zero_iff_no_bits(r);
        if bit64(d, val) {
            assert(bit64(r, val));
        }
    }
}

} // verus!
