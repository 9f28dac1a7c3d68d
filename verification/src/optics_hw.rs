//! Optics over bit-vector domains: prisms that focus on a subset of values,
//! lenses that focus on one variable of a state, and traversals over all
//! variables; plus a 256-value domain partitioned into four 64-bit buckets.

use vstd::prelude::*;
use vstd::std_specs::bits::u64_trailing_zeros;
use crate::bits::{popcount64, bit64, lemma_and_bits};
use crate::hardware::{BitVec64Chirho, is_single64};

verus! {

/// A domain over 64 term identifiers.
#[derive(Debug, Clone, Copy, PartialEq, Eq, Structural, Default)]
pub struct DomainHwChirho {
    pub bits_chirho: BitVec64Chirho,
}

impl DomainHwChirho {
    /// All 64 identifiers.
    pub fn full_chirho() -> (r: Self)
        ensures
            r.bits_chirho.0 == u64::MAX,
    {
        Self { bits_chirho: BitVec64Chirho::ONES_CHIRHO() }
    }

    /// No identifier.
    pub fn empty_chirho() -> (r: Self)
        ensures
            r.bits_chirho.0 == 0,
    {
        Self { bits_chirho: BitVec64Chirho::ZERO_CHIRHO() }
    }

    /// Exactly one identifier.
    pub fn singleton_chirho(term_id_chirho: u32) -> (r: Self)
        requires
            term_id_chirho < 64,
        ensures
            r.bits_chirho.0 == 1u64 << term_id_chirho,
    {
        let z = BitVec64Chirho::ZERO_CHIRHO();
        let r = Self { bits_chirho: z.set_bit_chirho(term_id_chirho) };
        assert(0u64 | (1u64 << term_id_chirho) == 1u64 << term_id_chirho) by (bit_vector);
        r
    }

    /// Identifiers in both domains.
    pub fn intersect_chirho(&self, other_chirho: &Self) -> (r: Self)
        ensures
            r.bits_chirho.0 == self.bits_chirho.0 & other_chirho.bits_chirho.0,
    {
        Self { bits_chirho: self.bits_chirho.and_chirho(other_chirho.bits_chirho) }
    }

    /// Identifiers in either domain.
    pub fn union_chirho(&self, other_chirho: &Self) -> (r: Self)
        ensures
            r.bits_chirho.0 == self.bits_chirho.0 | other_chirho.bits_chirho.0,
    {
        Self { bits_chirho: self.bits_chirho.or_chirho(other_chirho.bits_chirho) }
    }

    pub fn is_empty_chirho(&self) -> (r: bool)
        ensures
            r == (self.bits_chirho.0 == 0),
    {
        self.bits_chirho.is_zero_chirho()
    }

    pub fn is_singleton_chirho(&self) -> (r: bool)
        ensures
            r == is_single64(self.bits_chirho.0),
    {
        self.bits_chirho.is_singleton_chirho()
    }

    /// The identifier of a singleton domain.
    pub fn get_singleton_chirho(&self) -> (r: Option<u32>)
        ensures
            r == (if is_single64(self.bits_chirho.0) {
                Some(u64_trailing_zeros(self.bits_chirho.0))
            } else {
                None
            }),
    {
        if self.is_singleton_chirho() {
            Some(self.bits_chirho.ctz_chirho())
        } else {
            None
        }
    }

    pub fn popcount_chirho(&self) -> (r: u32)
        ensures
            r == popcount64(self.bits_chirho.0),
    {
        self.bits_chirho.popcount_chirho()
    }
}

/// What a prism's preview gives: the focused part, when it is non-empty.
pub open spec fn prism_preview(mask: u64, d: u64) -> Option<u64> {
    if d & mask == 0 { None } else { Some(d & mask) }
}

/// A prism focusing on the identifiers of `mask_chirho`.
#[derive(Debug, Clone, Copy)]
pub struct PrismHwChirho {
    pub mask_chirho: BitVec64Chirho,
}

impl PrismHwChirho {
    pub fn new_chirho(mask_chirho: BitVec64Chirho) -> (r: Self)
        ensures
            r.mask_chirho == mask_chirho,
    {
        Self { mask_chirho }
    }

    /// The focused part of a domain, or `None` when it is empty.
    pub fn preview_chirho(&self, domain_chirho: &DomainHwChirho) -> (r: Option<DomainHwChirho>)
        ensures
            r matches Some(d) ==> prism_preview(self.mask_chirho.0, domain_chirho.bits_chirho.0)
                == Some(d.bits_chirho.0),
            r is None ==> prism_preview(self.mask_chirho.0, domain_chirho.bits_chirho.0) is None,
    {
        let focused_chirho = domain_chirho.bits_chirho.and_chirho(self.mask_chirho);
        if focused_chirho.is_zero_chirho() {
            None
        } else {
            Some(DomainHwChirho { bits_chirho: focused_chirho })
        }
    }

    /// Embed a focused domain back (keeping only what the prism sees).
    pub fn review_chirho(&self, focused_chirho: &DomainHwChirho) -> (r: DomainHwChirho)
        ensures
            r.bits_chirho.0 == focused_chirho.bits_chirho.0 & self.mask_chirho.0,
    {
        DomainHwChirho { bits_chirho: focused_chirho.bits_chirho.and_chirho(self.mask_chirho) }
    }
}

/// Reviewing what a preview produced gives the preview back.
pub proof fn lemma_prism_review_preview(mask: u64, d: u64)
    ensures
        prism_preview(mask, d) matches Some(f) ==> f & mask == f,
{
    assert((d & mask) & mask == d & mask) by (bit_vector);
}

/// Previewing what review produced gives it back unless it is empty.
pub proof fn lemma_prism_preview_review(mask: u64, f: u64)
    ensures
        prism_preview(mask, f & mask) == (if f & mask == 0 { None } else { Some(f & mask) }),
{
    assert((f & mask) & mask == f & mask) by (bit_vector);
}

/// A state of `N` variables, each with a 64-identifier domain.
#[derive(Debug, Clone, Copy)]
pub struct StateHwChirho<const N: usize> {
    pub domains_chirho: [DomainHwChirho; N],
}

impl<const N: usize> StateHwChirho<N> {
    pub fn new_all_full_chirho() -> (r: Self)
        ensures
            forall|i: int| 0 <= i < N ==> #[trigger] r.domains_chirho[i].bits_chirho.0 == u64::MAX,
    {
        let f = DomainHwChirho::full_chirho();
        Self { domains_chirho: [f; N] }
    }

    pub fn new_all_empty_chirho() -> (r: Self)
        ensures
            forall|i: int| 0 <= i < N ==> #[trigger] r.domains_chirho[i].bits_chirho.0 == 0,
    {
        let e = DomainHwChirho::empty_chirho();
        Self { domains_chirho: [e; N] }
    }
}

/// What a lens on variable `i` reads.
pub open spec fn lens_get<const N: usize>(i: usize, s: StateHwChirho<N>) -> DomainHwChirho {
    s.domains_chirho[i as int]
}

/// What a lens on variable `i` writes.
pub open spec fn lens_set<const N: usize>(
    i: usize,
    s: StateHwChirho<N>,
    d: DomainHwChirho,
) -> Seq<DomainHwChirho> {
    s.domains_chirho@.update(i as int, d)
}

/// A lens focusing on one variable of a state.
#[derive(Debug, Clone, Copy)]
pub struct LensHwChirho {
    pub var_idx_chirho: usize,
}

impl LensHwChirho {
    pub fn new_chirho(var_idx_chirho: usize) -> (r: Self)
        ensures
            r.var_idx_chirho == var_idx_chirho,
    {
        Self { var_idx_chirho }
    }

    /// Read the focused variable's domain.
    pub fn get_chirho<const N: usize>(&self, state_chirho: &StateHwChirho<N>) -> (r: DomainHwChirho)
        requires
            self.var_idx_chirho < N,
        ensures
            r == lens_get(self.var_idx_chirho, *state_chirho),
    {
        state_chirho.domains_chirho[self.var_idx_chirho]
    }

    /// Write the focused variable's domain.
    pub fn set_chirho<const N: usize>(
        &self,
        state_chirho: StateHwChirho<N>,
        domain_chirho: DomainHwChirho,
    ) -> (r: StateHwChirho<N>)
        requires
            self.var_idx_chirho < N,
        ensures
            r.domains_chirho@ == lens_set(self.var_idx_chirho, state_chirho, domain_chirho),
    {
        let mut new_state_chirho = state_chirho;
        new_state_chirho.domains_chirho[self.var_idx_chirho] = domain_chirho;
        new_state_chirho
    }

    /// Modify the focused variable's domain with `f_chirho`.
    pub fn over_chirho<const N: usize, F>(&self, state_chirho: StateHwChirho<N>, f_chirho: F) -> (r:
        StateHwChirho<N>) where F: FnOnce(DomainHwChirho) -> DomainHwChirho
        requires
            self.var_idx_chirho < N,
            call_requires(f_chirho, (state_chirho.domains_chirho[self.var_idx_chirho as int],)),
        ensures
            exists|d: DomainHwChirho|
                call_ensures(f_chirho, (state_chirho.domains_chirho[self.var_idx_chirho as int],), d)
                    && r.domains_chirho@ == lens_set(self.var_idx_chirho, state_chirho, d),
    {
        let old_chirho = self.get_chirho(&state_chirho);
        let new_chirho = f_chirho(old_chirho);
        self.set_chirho(state_chirho, new_chirho)
    }
}

/// Lens law: reading after writing gives what was written.
pub proof fn lemma_lens_get_set<const N: usize>(i: usize, s: StateHwChirho<N>, d: DomainHwChirho)
    requires
        i < N,
    ensures
        lens_set(i, s, d)[i as int] == d,
{
}

/// Lens law: writing back what was read changes nothing.
pub proof fn lemma_lens_set_get<const N: usize>(i: usize, s: StateHwChirho<N>)
    requires
        i < N,
    ensures
        lens_set(i, s, lens_get(i, s)) == s.domains_chirho@,
{
    assert(lens_set(i, s, lens_get(i, s)) =~= s.domains_chirho@);
}

/// Lens law: the second of two writes wins.
pub proof fn lemma_lens_set_set<const N: usize>(
    i: usize,
    s: StateHwChirho<N>,
    a: DomainHwChirho,
    b: DomainHwChirho,
)
    requires
        i < N,
    ensures
        lens_set(i, s, a).update(i as int, b) == lens_set(i, s, b),
{
    assert(lens_set(i, s, a).update(i as int, b) =~= lens_set(i, s, b));
}

/// Apply `f_chirho` to every variable's domain.
pub fn traverse_all_chirho<const N: usize, F>(state_chirho: StateHwChirho<N>, f_chirho: F) -> (r:
    StateHwChirho<N>) where F: Fn(DomainHwChirho) -> DomainHwChirho
    requires
        forall|i: int| 0 <= i < N ==> call_requires(f_chirho, (#[trigger] state_chirho.domains_chirho[i],)),
    ensures
        forall|i: int|
            0 <= i < N ==> call_ensures(f_chirho, (state_chirho.domains_chirho[i],), #[trigger] r.domains_chirho[i]),
{
    let mut new_state_chirho = state_chirho;
    let mut i: usize = 0;
    while i < N
        invariant
            i <= N,
            forall|j: int| 0 <= j < N ==> call_requires(f_chirho, (#[trigger] state_chirho.domains_chirho[j],)),
            forall|j: int|
                0 <= j < i ==> call_ensures(f_chirho, (state_chirho.domains_chirho[j],), #[trigger] new_state_chirho.domains_chirho[j]),
        decreases N - i,
    {
        let d = f_chirho(state_chirho.domains_chirho[i]);
        new_state_chirho.domains_chirho[i] = d;
        i = i + 1;
    }
    new_state_chirho
}

/// Which variables still have a non-empty domain.
pub fn collect_nonempty_chirho<const N: usize>(state_chirho: &StateHwChirho<N>) -> (r: [bool; N])
    ensures
        forall|i: int| 0 <= i < N ==> #[trigger] r[i] == (state_chirho.domains_chirho[i].bits_chirho.0 != 0),
{
    let mut result_chirho = [false; N];
    let mut i: usize = 0;
    while i < N
        invariant
            i <= N,
            forall|j: int| 0 <= j < i ==> #[trigger] result_chirho[j] == (state_chirho.domains_chirho[j].bits_chirho.0 != 0),
        decreases N - i,
    {
        result_chirho[i] = !state_chirho.domains_chirho[i].is_empty_chirho();
        i = i + 1;
    }
    result_chirho
}

/// Identifier `t` (below 256) is in a partitioned domain.
pub open spec fn part_has(b: [BitVec64Chirho; 4], t: int) -> bool {
    0 <= t < 256 && bit64(b[t / 64].0, t % 64)
}

/// A 256-identifier domain held as four 64-bit buckets.
#[derive(Debug, Clone, Copy, PartialEq, Eq)]
pub struct PartitionedDomainChirho {
    pub buckets_chirho: [BitVec64Chirho; 4],
}

impl PartitionedDomainChirho {
    pub fn empty_chirho() -> (r: Self)
        ensures
            forall|k: int| 0 <= k < 4 ==> #[trigger] r.buckets_chirho[k].0 == 0,
    {
        let z = BitVec64Chirho::ZERO_CHIRHO();
        Self { buckets_chirho: [z; 4] }
    }

    pub fn full_chirho() -> (r: Self)
        ensures
            forall|k: int| 0 <= k < 4 ==> #[trigger] r.buckets_chirho[k].0 == u64::MAX,
    {
        let o = BitVec64Chirho::ONES_CHIRHO();
        Self { buckets_chirho: [o; 4] }
    }

    /// Exactly identifier `term_id_chirho`; empty when it is 256 or more.
    pub fn singleton_chirho(term_id_chirho: u32) -> (r: Self)
        ensures
            forall|t: int| #[trigger] part_has(r.buckets_chirho, t) == (t == term_id_chirho && t < 256),
    {
        let mut result_chirho = Self::empty_chirho();
        let bucket_chirho = (term_id_chirho / 64) as usize;
        let bit_chirho = term_id_chirho % 64;
        if bucket_chirho < 4 {
            result_chirho.buckets_chirho[bucket_chirho] = BitVec64Chirho::ZERO_CHIRHO().set_bit_chirho(
                bit_chirho,
            );
        }
        proof {
            crate::bits::lemma_zero_iff_no_bits(0u64);
            assert forall|t: int| #[trigger] part_has(result_chirho.buckets_chirho, t) == (t == term_id_chirho && t < 256) by {
                if 0 <= t < 256 && t / 64 == bucket_chirho {
                    assert(0u64 | (1u64 << bit_chirho) == 1u64 << bit_chirho) by (bit_vector);
                    crate::bits::lemma_shl_bits(bit_chirho as u64, t % 64);
                }
            }
        }
        result_chirho
    }

    /// Bucket-wise intersection.
    pub fn intersect_chirho(&self, other_chirho: &Self) -> (r: Self)
        ensures
            forall|k: int| 0 <= k < 4 ==> #[trigger] r.buckets_chirho[k].0 == self.buckets_chirho[k].0 & other_chirho.buckets_chirho[k].0,
            forall|t: int| #[trigger] part_has(r.buckets_chirho, t) == (part_has(self.buckets_chirho, t) && part_has(other_chirho.buckets_chirho, t)),
    {
        let a = self.buckets_chirho;
        let b = other_chirho.buckets_chirho;
        let r = Self {
            buckets_chirho: [
                a[0].and_chirho(b[0]),
                a[1].and_chirho(b[1]),
                a[2].and_chirho(b[2]),
                a[3].and_chirho(b[3]),
            ],
        };
        proof {
            assert forall|t: int| #[trigger] part_has(r.buckets_chirho, t) == (part_has(self.buckets_chirho, t) && part_has(other_chirho.buckets_chirho, t)) by {
                if 0 <= t < 256 {
                    lemma_and_bits(a[t / 64].0, b[t / 64].0, t % 64);
                }
            }
        }
        r
    }

    /// Bucket-wise union.
    pub fn union_chirho(&self, other_chirho: &Self) -> (r: Self)
        ensures
            forall|k: int| 0 <= k < 4 ==> #[trigger] r.buckets_chirho[k].0 == self.buckets_chirho[k].0 | other_chirho.buckets_chirho[k].0,
            forall|t: int| #[trigger] part_has(r.buckets_chirho, t) == (part_has(self.buckets_chirho, t) || part_has(other_chirho.buckets_chirho, t)),
    {
        let a = self.buckets_chirho;
        let b = other_chirho.buckets_chirho;
        let r = Self {
            buckets_chirho: [
                a[0].or_chirho(b[0]),
                a[1].or_chirho(b[1]),
                a[2].or_chirho(b[2]),
                a[3].or_chirho(b[3]),
            ],
        };
        proof {
            assert forall|t: int| #[trigger] part_has(r.buckets_chirho, t) == (part_has(self.buckets_chirho, t) || part_has(other_chirho.buckets_chirho, t)) by {
                if 0 <= t < 256 {
                    crate::bits::lemma_or_bits(a[t / 64].0, b[t / 64].0, t % 64);
                }
            }
        }
        r
    }

    /// No identifier at all.
    pub fn is_empty_chirho(&self) -> (r: bool)
        ensures
            r == (forall|k: int| 0 <= k < 4 ==> #[trigger] self.buckets_chirho[k].0 == 0),
    {
        let b = self.buckets_chirho;
        b[0].is_zero_chirho() && b[1].is_zero_chirho() && b[2].is_zero_chirho() && b[3].is_zero_chirho()
    }

    /// Number of identifiers.
    pub fn popcount_chirho(&self) -> (r: u32)
        ensures
            r == popcount64(self.buckets_chirho[0].0) + popcount64(self.buckets_chirho[1].0)
                + popcount64(self.buckets_chirho[2].0) + popcount64(self.buckets_chirho[3].0),
    {
        let b = self.buckets_chirho;
        b[0].popcount_chirho() + b[1].popcount_chirho() + b[2].popcount_chirho() + b[3].popcount_chirho()
    }
}

} // verus!
