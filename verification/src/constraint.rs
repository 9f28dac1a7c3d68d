//! Constraint propagation over 64-value bitmask domains: binary constraints
//! given as sets of allowed value pairs, and a store that narrows the domains
//! by arc revision (AC-3) until nothing changes or a domain becomes empty.

use vstd::prelude::*;
use std::collections::{HashMap, VecDeque};
use vstd::std_specs::bits::u64_trailing_zeros;
use vstd::std_specs::hash::spec_hash_map_iter;
use vstd::std_specs::iter::IteratorSpec;
use crate::bits::{
    bit64, popcount64, popcount_u64, low_mask64, lemma_low_mask_bits, lemma_and_bits,
    lemma_or_bits, lemma_shl_bits, lemma_not_bits, lemma_zero_iff_no_bits, lemma_popcount64_mono,
    lemma_popcount64_bound,
};
use crate::hardware::is_single64;

verus! {

broadcast use {vstd::std_specs::hash::group_hash_axioms, vstd::seq_lib::lemma_seq_contains_after_push};

/// Domain as a bitmask over the values 0..64.
#[derive(Debug, Clone, Copy, PartialEq, Eq, Structural)]
pub struct DomainChirho(pub u64);

impl DomainChirho {
    /// All 64 values.
    pub fn full_chirho() -> (r: Self)
        ensures
            r.0 == u64::MAX,
    {
        DomainChirho(u64::MAX)
    }

    /// No value.
    pub fn empty_chirho() -> (r: Self)
        ensures
            r.0 == 0,
    {
        DomainChirho(0)
    }

    /// Exactly `val_chirho` (below 64).
    pub fn singleton_chirho(val_chirho: u32) -> (r: Self)
        requires
            val_chirho < 64,
        ensures
            r.0 == 1u64 << val_chirho,
            forall|i: int| #[trigger] bit64(r.0, i) == (i == val_chirho),
    {
        proof {
            assert forall|i: int| #[trigger] bit64(1u64 << val_chirho, i) == (i == val_chirho) by {
                lemma_shl_bits(val_chirho as u64, i);
            }
        }
        DomainChirho(1u64 << val_chirho)
    }

    /// The values `0..n` (all 64 when `n >= 64`).
    pub fn range_chirho(n_chirho: u32) -> (r: Self)
        ensures
            forall|i: int| #[trigger] bit64(r.0, i) == (0 <= i < n_chirho && i < 64),
    {
        if n_chirho >= 64 {
            proof {
                assert forall|i: int| #[trigger] bit64(u64::MAX, i) == (0 <= i < n_chirho && i < 64) by {
                    lemma_low_mask_bits(64, i);
                }
            }
            DomainChirho(u64::MAX)
        } else {
            assert((1u64 << n_chirho) >= 1) by (bit_vector)
                requires
                    n_chirho < 64,
            ;
            let m = (1u64 << n_chirho) - 1;
            proof {
                assert(m == low_mask64(n_chirho as u64));
                assert forall|i: int| #[trigger] bit64(m, i) == (0 <= i < n_chirho && i < 64) by {
                    lemma_low_mask_bits(n_chirho as u64, i);
                }
            }
            DomainChirho(m)
        }
    }

    /// Values in both.
    pub fn intersect_chirho(self, other_chirho: DomainChirho) -> (r: DomainChirho)
        ensures
            r.0 == self.0 & other_chirho.0,
            forall|i: int| #[trigger] bit64(r.0, i) == (bit64(self.0, i) && bit64(other_chirho.0, i)),
    {
        proof {
            assert forall|i: int| #[trigger] bit64(self.0 & other_chirho.0, i) == (bit64(self.0, i) && bit64(other_chirho.0, i)) by {
                lemma_and_bits(self.0, other_chirho.0, i);
            }
        }
        DomainChirho(self.0 & other_chirho.0)
    }

    /// Values in either.
    pub fn union_chirho(self, other_chirho: DomainChirho) -> (r: DomainChirho)
        ensures
            r.0 == self.0 | other_chirho.0,
            forall|i: int| #[trigger] bit64(r.0, i) == (bit64(self.0, i) || bit64(other_chirho.0, i)),
    {
        proof {
            assert forall|i: int| #[trigger] bit64(self.0 | other_chirho.0, i) == (bit64(self.0, i) || bit64(other_chirho.0, i)) by {
                lemma_or_bits(self.0, other_chirho.0, i);
            }
        }
        DomainChirho(self.0 | other_chirho.0)
    }

    pub fn is_empty_chirho(self) -> (r: bool)
        ensures
            r == (self.0 == 0),
            r == forall|i: int| !#[trigger] bit64(self.0, i),
    {
        proof {
            lemma_zero_iff_no_bits(self.0);
        }
        self.0 == 0
    }

    pub fn is_singleton_chirho(self) -> (r: bool)
        ensures
            r == is_single64(self.0),
    {
        self.0 != 0 && (self.0 & (self.0 - 1)) == 0
    }

    /// The value of a singleton domain.
    pub fn get_singleton_chirho(self) -> (r: Option<u32>)
        ensures
            r == (if is_single64(self.0) { Some(u64_trailing_zeros(self.0)) } else { None }),
    {
        if self.is_singleton_chirho() {
            Some(self.0.trailing_zeros())
        } else {
            None
        }
    }

    /// Number of values.
    pub fn count_chirho(self) -> (r: u32)
        ensures
            r == popcount64(self.0),
    {
        popcount_u64(self.0)
    }

    /// Is `val_chirho` in the domain?
    pub fn contains_chirho(self, val_chirho: u32) -> (r: bool)
        ensures
            r == bit64(self.0, val_chirho as int),
    {
        if val_chirho >= 64 {
            false
        } else {
            proof {
                crate::bits::lemma_mask_test(self.0, val_chirho as u64);
            }
            (self.0 & (1u64 << val_chirho)) != 0
        }
    }

    /// Drop `val_chirho` (no change when it is 64 or more).
    pub fn remove_chirho(self, val_chirho: u32) -> (r: DomainChirho)
        ensures
            forall|i: int| #[trigger] bit64(r.0, i) == (bit64(self.0, i) && i != val_chirho),
            val_chirho >= 64 ==> r == self,
    {
        if val_chirho >= 64 {
            self
        } else {
            let r = DomainChirho(self.0 & !(1u64 << val_chirho));
            proof {
                assert forall|i: int| #[trigger] bit64(r.0, i) == (bit64(self.0, i) && i != val_chirho) by {
                    lemma_and_bits(self.0, !(1u64 << val_chirho), i);
                    lemma_not_bits(1u64 << val_chirho, i);
                    lemma_shl_bits(val_chirho as u64, i);
                }
            }
            r
        }
    }

    /// The values of the domain in increasing order.
    pub fn iter_chirho(self) -> (r: Vec<u32>)
        ensures
            forall|k: int| 0 <= k < r.len() ==> #[trigger] r[k] < 64 && bit64(self.0, r[k] as int),
            forall|k: int, l: int| 0 <= k < l < r.len() ==> #[trigger] r[k] < #[trigger] r[l],
            forall|j: int| #[trigger] bit64(self.0, j) ==> r@.contains(j as u32),
    {
        let w = crate::bitmatrix_packed::Word64Chirho(self.0);
        let r = w.iter_ones_chirho();
        assert forall|j: int| #[trigger] bit64(self.0, j) implies r@.contains(j as u32) by {
            assert(bit64(w.0, j));
        }
        r
    }
}

/// Variable identifier.
pub type VarIdChirho = u32;

/// Binary constraint: the allowed pairs of values of two variables.
#[derive(Debug, Clone)]
pub struct BinaryConstraintChirho {
    pub var1_chirho: VarIdChirho,
    pub var2_chirho: VarIdChirho,
    /// Allowed `(value of var1, value of var2)` pairs, each listed once.
    pub allowed_chirho: Vec<(u32, u32)>,
}

impl BinaryConstraintChirho {
    /// The allowed pairs as a set.
    pub open spec fn allowed(&self) -> Set<(u32, u32)> {
        self.allowed_chirho@.to_set()
    }

    /// No pair is listed twice.
    pub open spec fn wf(&self) -> bool {
        self.allowed_chirho@.no_duplicates()
    }

    /// A constraint allowing nothing yet.
    pub fn new(var1_chirho: VarIdChirho, var2_chirho: VarIdChirho) -> (r: Self)
        ensures
            r.var1_chirho == var1_chirho && r.var2_chirho == var2_chirho,
            r.allowed() == Set::<(u32, u32)>::empty(),
            r.wf(),
    {
        let r = Self { var1_chirho, var2_chirho, allowed_chirho: Vec::new() };
        assert(r.allowed() =~= Set::<(u32, u32)>::empty());
        r
    }

    /// Is the pair allowed?
    pub fn allows_chirho(&self, v1_chirho: u32, v2_chirho: u32) -> (r: bool)
        ensures
            r == self.allowed().contains((v1_chirho, v2_chirho)),
    {
        let mut i: usize = 0;
        while i < self.allowed_chirho.len()
            invariant
                i <= self.allowed_chirho.len(),
                forall|k: int| 0 <= k < i ==> #[trigger] self.allowed_chirho@[k] != (v1_chirho, v2_chirho),
            decreases self.allowed_chirho.len() - i,
        {
            let (a, b) = self.allowed_chirho[i];
            if a == v1_chirho && b == v2_chirho {
                assert(self.allowed_chirho@[i as int] == (v1_chirho, v2_chirho));
                return true;
            }
            i = i + 1;
        }
        false
    }

    /// Allow a pair.
    pub fn allow_chirho(&mut self, v1_chirho: u32, v2_chirho: u32)
        requires
            old(self).wf(),
        ensures
            final(self).wf(),
            final(self).var1_chirho == old(self).var1_chirho && final(self).var2_chirho == old(self).var2_chirho,
            final(self).allowed() == old(self).allowed().insert((v1_chirho, v2_chirho)),
    {
        if !self.allows_chirho(v1_chirho, v2_chirho) {
            let ghost prev = self.allowed_chirho@;
            self.allowed_chirho.push((v1_chirho, v2_chirho));
            proof {
                assert(self.allowed_chirho@ == prev.push((v1_chirho, v2_chirho)));
                prev.lemma_push_to_set_commute((v1_chirho, v2_chirho));
                assert(self.allowed_chirho@.no_duplicates()) by {
                    assert forall|i: int, j: int| 0 <= i < j < self.allowed_chirho@.len() implies self.allowed_chirho@[i] != self.allowed_chirho@[j] by {
                        if j == prev.len() {
                            assert(prev.contains(prev[i]));
                        }
                    }
                }
            }
        } else {
            assert(self.allowed() =~= self.allowed().insert((v1_chirho, v2_chirho)));
        }
    }

    /// `var1 == var2` over the values `0..max`.
    pub fn equality_chirho(var1_chirho: VarIdChirho, var2_chirho: VarIdChirho, max_val_chirho: u32) -> (r: Self)
        ensures
            r.wf(),
            r.var1_chirho == var1_chirho && r.var2_chirho == var2_chirho,
            forall|a: u32, b: u32| #[trigger] r.allowed().contains((a, b)) == (a == b && a < max_val_chirho),
    {
        let mut c_chirho = Self::new(var1_chirho, var2_chirho);
        let mut v: u32 = 0;
        while v < max_val_chirho
            invariant
                v <= max_val_chirho,
                c_chirho.wf(),
                c_chirho.var1_chirho == var1_chirho && c_chirho.var2_chirho == var2_chirho,
                forall|a: u32, b: u32| #[trigger] c_chirho.allowed().contains((a, b)) == (a == b && a < v),
            decreases max_val_chirho - v,
        {
            c_chirho.allow_chirho(v, v);
            v = v + 1;
        }
        c_chirho
    }

    /// `var1 != var2` over the values `0..max`.
    pub fn not_equal_chirho(var1_chirho: VarIdChirho, var2_chirho: VarIdChirho, max_val_chirho: u32) -> (r: Self)
        ensures
            r.wf(),
            r.var1_chirho == var1_chirho && r.var2_chirho == var2_chirho,
            forall|a: u32, b: u32| #[trigger] r.allowed().contains((a, b)) == (a != b && a < max_val_chirho && b < max_val_chirho),
    {
        let mut c_chirho = Self::new(var1_chirho, var2_chirho);
        let mut v1: u32 = 0;
        while v1 < max_val_chirho
            invariant
                v1 <= max_val_chirho,
                c_chirho.wf(),
                c_chirho.var1_chirho == var1_chirho && c_chirho.var2_chirho == var2_chirho,
                forall|a: u32, b: u32| #[trigger] c_chirho.allowed().contains((a, b)) == (a != b && a < v1 && b < max_val_chirho),
            decreases max_val_chirho - v1,
        {
            let mut v2: u32 = 0;
            while v2 < max_val_chirho
                invariant
                    v1 < max_val_chirho,
                    v2 <= max_val_chirho,
                    c_chirho.wf(),
                    c_chirho.var1_chirho == var1_chirho && c_chirho.var2_chirho == var2_chirho,
                    forall|a: u32, b: u32| #[trigger] c_chirho.allowed().contains((a, b)) == (a != b && b < max_val_chirho
                        && (a < v1 || (a == v1 && b < v2))),
                decreases max_val_chirho - v2,
            {
                if v1 != v2 {
                    c_chirho.allow_chirho(v1, v2);
                }
                v2 = v2 + 1;
            }
            v1 = v1 + 1;
        }
        c_chirho
    }
}


/// The domain a map gives a variable (all 64 values when it has none).
pub open spec fn dom_of(doms: Map<VarIdChirho, DomainChirho>, v: VarIdChirho) -> u64 {
    if doms.contains_key(v) { doms[v].0 } else { u64::MAX }
}

/// `sigma` picks, for every variable, a value of its domain.
pub open spec fn within(sigma: spec_fn(VarIdChirho) -> u32, doms: Map<VarIdChirho, DomainChirho>) -> bool {
    forall|v: VarIdChirho| #[trigger] bit64(dom_of(doms, v), sigma(v) as int)
}

/// `sigma` picks values from the domains that every constraint allows.
pub open spec fn is_solution(
    sigma: spec_fn(VarIdChirho) -> u32,
    doms: Map<VarIdChirho, DomainChirho>,
    cs: Seq<BinaryConstraintChirho>,
) -> bool {
    &&& within(sigma, doms)
    &&& forall|i: int| 0 <= i < cs.len() ==> #[trigger] cs[i].allowed().contains((sigma(cs[i].var1_chirho), sigma(cs[i].var2_chirho)))
}

/// The pair `(a, b)` read in the constraint's order: `a` belongs to the revised variable.
pub open spec fn pair_allowed(c: BinaryConstraintChirho, revise_first: bool, a: int, b: int) -> bool {
    if revise_first {
        c.allowed().contains((a as u32, b as u32))
    } else {
        c.allowed().contains((b as u32, a as u32))
    }
}

/// Sum of the domain sizes of the two variables of the first `n` constraints.
pub open spec fn domain_measure(doms: Map<VarIdChirho, DomainChirho>, cs: Seq<BinaryConstraintChirho>, n: nat) -> nat
    decreases n,
{
    if n == 0 {
        0
    } else {
        domain_measure(doms, cs, (n - 1) as nat) + popcount64(dom_of(doms, cs[n - 1].var1_chirho)) + popcount64(
            dom_of(doms, cs[n - 1].var2_chirho),
        )
    }
}

proof fn lemma_domain_measure_mono(
    a: Map<VarIdChirho, DomainChirho>,
    b: Map<VarIdChirho, DomainChirho>,
    cs: Seq<BinaryConstraintChirho>,
    n: nat,
    var: VarIdChirho,
)
    requires
        n <= cs.len(),
        forall|v: VarIdChirho, j: int| #[trigger] bit64(dom_of(b, v), j) ==> bit64(dom_of(a, v), j),
        forall|v: VarIdChirho| v != var ==> #[trigger] dom_of(b, v) == dom_of(a, v),
        dom_of(b, var) != dom_of(a, var),
    ensures
        domain_measure(b, cs, n) <= domain_measure(a, cs, n),
        (exists|i: int| 0 <= i < n && (cs[i].var1_chirho == var || cs[i].var2_chirho == var)) ==> domain_measure(b, cs, n) < domain_measure(a, cs, n),
    decreases n,
{
    if n > 0 {
        lemma_domain_measure_mono(a, b, cs, (n - 1) as nat, var);
        let c = cs[n - 1];
        lemma_popcount64_mono(dom_of(b, c.var1_chirho), dom_of(a, c.var1_chirho));
        lemma_popcount64_mono(dom_of(b, c.var2_chirho), dom_of(a, c.var2_chirho));
        if exists|i: int| 0 <= i < n && (cs[i].var1_chirho == var || cs[i].var2_chirho == var) {
            let i = choose|i: int| 0 <= i < n && (cs[i].var1_chirho == var || cs[i].var2_chirho == var);
            if i < n - 1 {
                assert(exists|i: int| 0 <= i < n - 1 && (cs[i].var1_chirho == var || cs[i].var2_chirho == var));
            }
        }
    }
}

proof fn lemma_domain_measure_bound(doms: Map<VarIdChirho, DomainChirho>, cs: Seq<BinaryConstraintChirho>, n: nat)
    ensures
        domain_measure(doms, cs, n) <= 128 * n,
    decreases n,
{
    if n > 0 {
        lemma_domain_measure_bound(doms, cs, (n - 1) as nat);
        lemma_popcount64_bound(dom_of(doms, cs[n - 1].var1_chirho));
        lemma_popcount64_bound(dom_of(doms, cs[n - 1].var2_chirho));
    }
}

/// Keep the values of `domain` that some value of `other` supports under `c`.
fn revise_chirho(c: &BinaryConstraintChirho, revise_first: bool, domain: DomainChirho, other: DomainChirho) -> (r: DomainChirho)
    ensures
        forall|a: int| #[trigger] bit64(r.0, a) == (bit64(domain.0, a) && exists|b: int|
            #[trigger] bit64(other.0, b) && pair_allowed(*c, revise_first, a, b)),
{
    let vals = domain.iter_chirho();
    let others = other.iter_chirho();
    let mut new_domain = DomainChirho::empty_chirho();
    let mut i: usize = 0;
    proof {
        lemma_zero_iff_no_bits(0);
    }
    while i < vals.len()
        invariant
            i <= vals.len(),
            forall|k: int| 0 <= k < vals.len() ==> #[trigger] vals[k] < 64 && bit64(domain.0, vals[k] as int),
            forall|k: int, l: int| 0 <= k < l < vals.len() ==> #[trigger] vals[k] < #[trigger] vals[l],
            forall|j: int| #[trigger] bit64(domain.0, j) ==> vals@.contains(j as u32),
            forall|k: int| 0 <= k < others.len() ==> #[trigger] others[k] < 64 && bit64(other.0, others[k] as int),
            forall|j: int| #[trigger] bit64(other.0, j) ==> others@.contains(j as u32),
            forall|a: int| #[trigger] bit64(new_domain.0, a) == (exists|k: int| 0 <= k < i && vals[k] == a && exists|b: int|
                #[trigger] bit64(other.0, b) && pair_allowed(*c, revise_first, a, b)),
        decreases vals.len() - i,
    {
        let val = vals[i];
        let mut has_support = false;
        let mut k: usize = 0;
        while k < others.len()
            invariant
                k <= others.len(),
                val < 64,
                forall|t: int| 0 <= t < others.len() ==> #[trigger] others[t] < 64 && bit64(other.0, others[t] as int),
                has_support == exists|t: int| 0 <= t < k && pair_allowed(*c, revise_first, val as int, #[trigger] others[t] as int),
            decreases others.len() - k,
        {
            let ov = others[k];
            let ok = if revise_first { c.allows_chirho(val, ov) } else { c.allows_chirho(ov, val) };
            if ok {
                has_support = true;
            }
            k = k + 1;
        }
        let ghost prev = new_domain;
        proof {
            assert(has_support == exists|b: int| #[trigger] bit64(other.0, b) && pair_allowed(*c, revise_first, val as int, b)) by {
                if has_support {
                    let t = choose|t: int| 0 <= t < k && pair_allowed(*c, revise_first, val as int, #[trigger] others[t] as int);
                    assert(bit64(other.0, others[t] as int));
                }
                if exists|b: int| #[trigger] bit64(other.0, b) && pair_allowed(*c, revise_first, val as int, b) {
                    let b = choose|b: int| #[trigger] bit64(other.0, b) && pair_allowed(*c, revise_first, val as int, b);
                    assert(others@.contains(b as u32));
                    let t = choose|t: int| 0 <= t < others.len() && others@[t] == b as u32;
                    assert(pair_allowed(*c, revise_first, val as int, others[t] as int));
                }
            }
        }
        if has_support {
            new_domain = new_domain.union_chirho(DomainChirho::singleton_chirho(val));
        }
        proof {
            assert forall|a: int| #[trigger] bit64(new_domain.0, a) == (exists|k: int| 0 <= k < i + 1 && vals[k] == a && exists|b: int|
                #[trigger] bit64(other.0, b) && pair_allowed(*c, revise_first, a, b)) by {
                if exists|k: int| 0 <= k < i + 1 && vals[k] == a && exists|b: int| #[trigger] bit64(other.0, b) && pair_allowed(*c, revise_first, a, b) {
                    let k = choose|k: int| 0 <= k < i + 1 && vals[k] == a && exists|b: int| #[trigger] bit64(other.0, b) && pair_allowed(*c, revise_first, a, b);
                    if k < i {
                        assert(bit64(prev.0, a));
                    }
                }
            }
        }
        i = i + 1;
    }
    proof {
        assert forall|a: int| #[trigger] bit64(new_domain.0, a) == (bit64(domain.0, a) && exists|b: int|
            #[trigger] bit64(other.0, b) && pair_allowed(*c, revise_first, a, b)) by {
            if bit64(domain.0, a) {
                assert(vals@.contains(a as u32));
                let k = choose|k: int| 0 <= k < vals.len() && vals@[k] == a as u32;
                assert(vals[k] == a);
            }
        }
    }
    new_domain
}

/// The variable an arc revises: the first one of the constraint when `dir` holds.
pub open spec fn arc_var(c: BinaryConstraintChirho, dir: bool) -> VarIdChirho {
    if dir { c.var1_chirho } else { c.var2_chirho }
}

/// The variable an arc revises against.
pub open spec fn arc_other(c: BinaryConstraintChirho, dir: bool) -> VarIdChirho {
    if dir { c.var2_chirho } else { c.var1_chirho }
}

/// Every value of the revised variable has a partner in the other variable's domain.
pub open spec fn arc_ok(doms: Map<VarIdChirho, DomainChirho>, c: BinaryConstraintChirho, dir: bool) -> bool {
    forall|a: int| #[trigger] bit64(dom_of(doms, arc_var(c, dir)), a) ==> exists|b: int|
        #[trigger] bit64(dom_of(doms, arc_other(c, dir)), b) && pair_allowed(c, dir, a, b)
}

/// Both arcs of every constraint are supported.
pub open spec fn arc_consistent(doms: Map<VarIdChirho, DomainChirho>, cs: Seq<BinaryConstraintChirho>) -> bool {
    forall|i: int, d: bool| 0 <= i < cs.len() ==> #[trigger] arc_ok(doms, cs[i], d)
}

/// No constraint ties a variable to itself.
pub open spec fn no_self_loops(cs: Seq<BinaryConstraintChirho>) -> bool {
    forall|i: int| 0 <= i < cs.len() ==> #[trigger] cs[i].var1_chirho != cs[i].var2_chirho
}

/// Some constraint names `v`.
pub open spec fn mentions(cs: Seq<BinaryConstraintChirho>, v: VarIdChirho) -> bool {
    exists|i: int| 0 <= i < cs.len() && (#[trigger] cs[i].var1_chirho == v || cs[i].var2_chirho == v)
}

/// Every domain of `a` lies within the same variable's domain in `b`.
pub open spec fn narrower(a: Map<VarIdChirho, DomainChirho>, b: Map<VarIdChirho, DomainChirho>) -> bool {
    forall|v: VarIdChirho, j: int| #[trigger] bit64(dom_of(a, v), j) ==> bit64(dom_of(b, v), j)
}

/// Every solution under `before` is still one under `after`.
pub open spec fn keeps_solutions(
    before: Map<VarIdChirho, DomainChirho>,
    after: Map<VarIdChirho, DomainChirho>,
    cs: Seq<BinaryConstraintChirho>,
) -> bool {
    forall|sigma: spec_fn(VarIdChirho) -> u32|
        #![trigger is_solution(sigma, before, cs)]
        #![trigger is_solution(sigma, after, cs)]
        is_solution(sigma, before, cs) ==> is_solution(sigma, after, cs)
}

/// Every arc-consistent narrowing of `before` is a narrowing of `after`.
pub open spec fn keeps_consistent_narrowings(
    before: Map<VarIdChirho, DomainChirho>,
    after: Map<VarIdChirho, DomainChirho>,
    cs: Seq<BinaryConstraintChirho>,
) -> bool {
    forall|d: Map<VarIdChirho, DomainChirho>|
        #![trigger narrower(d, after)]
        narrower(d, before) && arc_consistent(d, cs) ==> narrower(d, after)
}

/// The arc to queue again, after `v` changed, for a constraint that names `v`.
pub open spec fn requeue_arc(c: BinaryConstraintChirho, i: int, v: VarIdChirho) -> (usize, bool) {
    (i as usize, c.var1_chirho != v)
}

/// Revising the arc `(c, dir)` of `doms` into `new` keeps what the propagation promises.
proof fn lemma_revise_keeps(
    doms0: Map<VarIdChirho, DomainChirho>,
    doms: Map<VarIdChirho, DomainChirho>,
    cs: Seq<BinaryConstraintChirho>,
    idx: int,
    dir: bool,
    new: u64,
)
    requires
        0 <= idx < cs.len(),
        narrower(doms, doms0),
        keeps_solutions(doms0, doms, cs),
        keeps_consistent_narrowings(doms0, doms, cs),
        forall|a: int| #[trigger] bit64(new, a) == (bit64(dom_of(doms, arc_var(cs[idx], dir)), a) && exists|b: int|
            #[trigger] bit64(dom_of(doms, arc_other(cs[idx], dir)), b) && pair_allowed(cs[idx], dir, a, b)),
    ensures
        ({
            let d2 = doms.insert(arc_var(cs[idx], dir), DomainChirho(new));
            &&& narrower(d2, doms0)
            &&& narrower(d2, doms)
            &&& keeps_solutions(doms0, d2, cs)
            &&& keeps_consistent_narrowings(doms0, d2, cs)
        }),
{
    let x = arc_var(cs[idx], dir);
    let y = arc_other(cs[idx], dir);
    let d2 = doms.insert(x, DomainChirho(new));
    assert forall|v: VarIdChirho, j: int| #[trigger] bit64(dom_of(d2, v), j) implies bit64(dom_of(doms, v), j) by {
        if v == x {
            assert(bit64(new, j));
        } else {
            assert(dom_of(d2, v) == dom_of(doms, v));
        }
    }
    assert forall|v: VarIdChirho, j: int| #[trigger] bit64(dom_of(d2, v), j) implies bit64(dom_of(doms0, v), j) by {
        assert(bit64(dom_of(doms, v), j));
    }
    assert forall|sigma: spec_fn(VarIdChirho) -> u32| #[trigger] is_solution(sigma, doms0, cs) implies is_solution(sigma, d2, cs) by {
        assert(is_solution(sigma, doms, cs));
        assert forall|v: VarIdChirho| #[trigger] bit64(dom_of(d2, v), sigma(v) as int) by {
            assert(bit64(dom_of(doms, v), sigma(v) as int));
            if v == x {
                assert(cs[idx].allowed().contains((sigma(cs[idx].var1_chirho), sigma(cs[idx].var2_chirho))));
                let b = sigma(y) as int;
                assert(bit64(dom_of(doms, y), b));
                assert(pair_allowed(cs[idx], dir, sigma(x) as int, b));
                assert(bit64(new, sigma(x) as int));
            } else {
                assert(dom_of(d2, v) == dom_of(doms, v));
            }
        }
    }
    assert forall|d: Map<VarIdChirho, DomainChirho>| narrower(d, doms0) && arc_consistent(d, cs) implies #[trigger] narrower(d, d2) by {
        assert(narrower(d, doms));
        assert forall|v: VarIdChirho, j: int| #[trigger] bit64(dom_of(d, v), j) implies bit64(dom_of(d2, v), j) by {
            assert(bit64(dom_of(doms, v), j));
            if v == x {
                assert(arc_ok(d, cs[idx], dir));
                let b = choose|b: int| #[trigger] bit64(dom_of(d, y), b) && pair_allowed(cs[idx], dir, j, b);
                assert(bit64(dom_of(doms, y), b));
                assert(bit64(new, j));
            } else {
                assert(dom_of(d2, v) == dom_of(doms, v));
            }
        }
    }
}

/// After an arc that changed nothing, every arc is still queued or supported.
proof fn lemma_arcs_unchanged(
    doms: Map<VarIdChirho, DomainChirho>,
    cs: Seq<BinaryConstraintChirho>,
    q: Seq<(usize, bool)>,
    idx: int,
    dir: bool,
)
    requires
        cs.len() <= usize::MAX,
        q.len() > 0,
        q[0] == (idx as usize, dir),
        0 <= idx < cs.len(),
        arc_ok(doms, cs[idx], dir),
        forall|j: int, d: bool| 0 <= j < cs.len() ==> q.contains((j as usize, d)) || #[trigger] arc_ok(doms, cs[j], d),
    ensures
        forall|j: int, d: bool|
            0 <= j < cs.len() ==> q.subrange(1, q.len() as int).contains((j as usize, d)) || #[trigger] arc_ok(doms, cs[j], d),
{
    let q1 = q.subrange(1, q.len() as int);
    assert forall|j: int, d: bool| 0 <= j < cs.len() && !#[trigger] arc_ok(doms, cs[j], d) implies q1.contains((j as usize, d)) by {
        assert(q.contains((j as usize, d)));
        let k = choose|k: int| 0 <= k < q.len() && q[k] == (j as usize, d);
        if k == 0 {
            assert(j == idx && d == dir);
        } else {
            assert(q1[k - 1] == (j as usize, d));
        }
    }
}

/// After an arc narrowed its variable and the arcs that lean on that variable
/// were queued again, every arc is still queued or supported.
proof fn lemma_arcs_requeued(
    doms: Map<VarIdChirho, DomainChirho>,
    cs: Seq<BinaryConstraintChirho>,
    q: Seq<(usize, bool)>,
    q2: Seq<(usize, bool)>,
    idx: int,
    dir: bool,
    new: u64,
)
    requires
        no_self_loops(cs),
        cs.len() <= usize::MAX,
        q.len() > 0,
        q[0] == (idx as usize, dir),
        0 <= idx < cs.len(),
        forall|j: int, d: bool| 0 <= j < cs.len() ==> q.contains((j as usize, d)) || #[trigger] arc_ok(doms, cs[j], d),
        forall|a: int| #[trigger] bit64(new, a) == (bit64(dom_of(doms, arc_var(cs[idx], dir)), a) && exists|b: int|
            #[trigger] bit64(dom_of(doms, arc_other(cs[idx], dir)), b) && pair_allowed(cs[idx], dir, a, b)),
        q2.len() >= q.len() - 1,
        forall|k: int| 0 <= k < q.len() - 1 ==> #[trigger] q2[k] == q[k + 1],
        forall|j: int|
            0 <= j < cs.len() && j != idx && (cs[j].var1_chirho == arc_var(cs[idx], dir) || cs[j].var2_chirho == arc_var(cs[idx], dir))
                ==> q2.contains(#[trigger] requeue_arc(cs[j], j, arc_var(cs[idx], dir))),
    ensures
        forall|j: int, d: bool|
            0 <= j < cs.len() ==> q2.contains((j as usize, d)) || #[trigger] arc_ok(doms.insert(arc_var(cs[idx], dir), DomainChirho(new)), cs[j], d),
{
    let x = arc_var(cs[idx], dir);
    let y = arc_other(cs[idx], dir);
    let d2 = doms.insert(x, DomainChirho(new));
    assert(x != y);
    assert forall|j: int, d: bool| 0 <= j < cs.len() && !#[trigger] arc_ok(d2, cs[j], d) implies q2.contains((j as usize, d)) by {
        let xj = arc_var(cs[j], d);
        let yj = arc_other(cs[j], d);
        assert(cs[j].var1_chirho != cs[j].var2_chirho);
        if q.contains((j as usize, d)) && !(j == idx && d == dir) {
            let k = choose|k: int| 0 <= k < q.len() && q[k] == (j as usize, d);
            assert(k != 0);
            assert(q2[k - 1] == q[k]);
        } else if j == idx && d == dir {
            assert forall|a: int| #[trigger] bit64(dom_of(d2, xj), a) implies exists|b: int|
                #[trigger] bit64(dom_of(d2, yj), b) && pair_allowed(cs[j], d, a, b) by {
                assert(bit64(new, a));
                let b = choose|b: int| #[trigger] bit64(dom_of(doms, y), b) && pair_allowed(cs[idx], dir, a, b);
                assert(dom_of(d2, yj) == dom_of(doms, y));
                assert(bit64(dom_of(d2, yj), b));
            }
        } else if j == idx {
            assert(arc_ok(doms, cs[j], d));
            assert(xj == y && yj == x);
            assert forall|a: int| #[trigger] bit64(dom_of(d2, xj), a) implies exists|b: int|
                #[trigger] bit64(dom_of(d2, yj), b) && pair_allowed(cs[j], d, a, b) by {
                assert(dom_of(d2, xj) == dom_of(doms, xj));
                let b = choose|b: int| #[trigger] bit64(dom_of(doms, yj), b) && pair_allowed(cs[j], d, a, b);
                assert(bit64(dom_of(doms, y), a) && pair_allowed(cs[idx], dir, b, a));
                assert(bit64(new, b));
                assert(bit64(dom_of(d2, yj), b));
            }
        } else {
            assert(arc_ok(doms, cs[j], d));
            if yj == x {
                assert(q2.contains(requeue_arc(cs[j], j, x)));
                assert(requeue_arc(cs[j], j, x) == (j as usize, d));
            } else {
                assert forall|a: int| #[trigger] bit64(dom_of(d2, xj), a) implies exists|b: int|
                    #[trigger] bit64(dom_of(d2, yj), b) && pair_allowed(cs[j], d, a, b) by {
                    if xj == x {
                        assert(bit64(new, a));
                    } else {
                        assert(dom_of(d2, xj) == dom_of(doms, xj));
                    }
                    assert(bit64(dom_of(doms, xj), a));
                    let b = choose|b: int| #[trigger] bit64(dom_of(doms, yj), b) && pair_allowed(cs[j], d, a, b);
                    assert(dom_of(d2, yj) == dom_of(doms, yj));
                    assert(bit64(dom_of(d2, yj), b));
                }
            }
        }
    }
}

/// Variable domains and binary constraints between them.
#[derive(Debug, Clone)]
pub struct ConstraintStoreChirho {
    /// Domain of each variable; a variable without one may take all 64 values.
    pub domains_chirho: HashMap<VarIdChirho, DomainChirho>,
    /// The constraints, in the order they were added.
    pub constraints_chirho: Vec<BinaryConstraintChirho>,
    /// For each variable, the indices of the constraints that name it.
    constraint_index_chirho: HashMap<VarIdChirho, Vec<usize>>,
}

impl ConstraintStoreChirho {
    /// The domains held, by variable.
    pub closed spec fn doms(&self) -> Map<VarIdChirho, DomainChirho> {
        self.domains_chirho@
    }

    /// The constraints held, in the order they were added.
    pub closed spec fn cs(&self) -> Seq<BinaryConstraintChirho> {
        self.constraints_chirho@
    }

    /// The index names only existing constraints.
    closed spec fn index_sound(&self) -> bool {
        forall|v: VarIdChirho, t: int|
            #![trigger self.constraint_index_chirho@[v]@[t]]
            self.constraint_index_chirho@.contains_key(v) && 0 <= t < self.constraint_index_chirho@[v]@.len()
                ==> self.constraint_index_chirho@[v]@[t] < self.constraints_chirho@.len()
    }

    /// Constraint `j` is listed under both of its variables.
    closed spec fn indexed(&self, j: int) -> bool {
        let c = self.constraints_chirho@[j];
        &&& self.constraint_index_chirho@.contains_key(c.var1_chirho)
        &&& self.constraint_index_chirho@[c.var1_chirho]@.contains(j as usize)
        &&& self.constraint_index_chirho@.contains_key(c.var2_chirho)
        &&& self.constraint_index_chirho@[c.var2_chirho]@.contains(j as usize)
    }

    /// The index lists exactly the constraints that name each variable.
    pub closed spec fn wf(&self) -> bool {
        &&& self.index_sound()
        &&& forall|j: int| 0 <= j < self.constraints_chirho@.len() ==> #[trigger] self.indexed(j)
    }

    /// An empty store.
    pub fn new() -> (r: Self)
        ensures
            r.wf(),
            r.doms() == Map::<VarIdChirho, DomainChirho>::empty(),
            r.cs() == Seq::<BinaryConstraintChirho>::empty(),
    {
        Self { domains_chirho: HashMap::new(), constraints_chirho: Vec::new(), constraint_index_chirho: HashMap::new() }
    }

    /// Give a variable a domain.
    pub fn add_var_chirho(&mut self, var_chirho: VarIdChirho, domain_chirho: DomainChirho)
        requires
            old(self).wf(),
        ensures
            final(self).wf(),
            final(self).doms() == old(self).doms().insert(var_chirho, domain_chirho),
            final(self).cs() == old(self).cs(),
    {
        self.domains_chirho.insert(var_chirho, domain_chirho);
        proof {
            assert forall|j: int| 0 <= j < self.constraints_chirho@.len() implies #[trigger] self.indexed(j) by {
                assert(old(self).indexed(j));
            }
        }
    }

    fn index_push_chirho(&mut self, var_chirho: VarIdChirho, idx_chirho: usize)
        requires
            old(self).index_sound(),
            idx_chirho < old(self).constraints_chirho.len(),
        ensures
            final(self).index_sound(),
            final(self).domains_chirho@ == old(self).domains_chirho@,
            final(self).constraints_chirho@ == old(self).constraints_chirho@,
            final(self).constraint_index_chirho@.contains_key(var_chirho),
            final(self).constraint_index_chirho@[var_chirho]@.contains(idx_chirho),
            forall|v: VarIdChirho, k: usize|
                old(self).constraint_index_chirho@.contains_key(v) && #[trigger] old(self).constraint_index_chirho@[v]@.contains(k)
                    ==> final(self).constraint_index_chirho@.contains_key(v) && final(self).constraint_index_chirho@[v]@.contains(k),
    {
        let mut list = match self.constraint_index_chirho.remove(&var_chirho) {
            Some(l) => l,
            None => Vec::new(),
        };
        let ghost before = list@;
        list.push(idx_chirho);
        self.constraint_index_chirho.insert(var_chirho, list);
        proof {
            assert(self.constraint_index_chirho@[var_chirho]@[before.len() as int] == idx_chirho);
            assert forall|v: VarIdChirho, t: int|
                #![trigger self.constraint_index_chirho@[v]@[t]]
                self.constraint_index_chirho@.contains_key(v) && 0 <= t < self.constraint_index_chirho@[v]@.len()
                    implies self.constraint_index_chirho@[v]@[t] < self.constraints_chirho@.len() by {
                if v != var_chirho {
                    assert(old(self).constraint_index_chirho@.contains_key(v));
                    assert(old(self).constraint_index_chirho@[v] == self.constraint_index_chirho@[v]);
                } else if t < self.constraint_index_chirho@[v]@.len() - 1 {
                    assert(old(self).constraint_index_chirho@.contains_key(v));
                    assert(self.constraint_index_chirho@[v]@[t] == old(self).constraint_index_chirho@[v]@[t]);
                }
            }
            assert forall|v: VarIdChirho, k: usize|
                old(self).constraint_index_chirho@.contains_key(v) && #[trigger] old(self).constraint_index_chirho@[v]@.contains(k)
                    implies self.constraint_index_chirho@.contains_key(v) && self.constraint_index_chirho@[v]@.contains(k) by {
                if v == var_chirho {
                    let t = choose|t: int| 0 <= t < old(self).constraint_index_chirho@[v]@.len() && old(self).constraint_index_chirho@[v]@[t] == k;
                    assert(self.constraint_index_chirho@[v]@[t] == k);
                }
            }
        }
    }

    /// Add a constraint and index it under both of its variables.
    pub fn add_constraint_chirho(&mut self, constraint_chirho: BinaryConstraintChirho)
        requires
            old(self).wf(),
        ensures
            final(self).wf(),
            final(self).doms() == old(self).doms(),
            final(self).cs() == old(self).cs().push(constraint_chirho),
    {
        let idx_chirho = self.constraints_chirho.len();
        let v1 = constraint_chirho.var1_chirho;
        let v2 = constraint_chirho.var2_chirho;
        self.constraints_chirho.push(constraint_chirho);
        proof {
            assert forall|v: VarIdChirho, t: int|
                #![trigger self.constraint_index_chirho@[v]@[t]]
                self.constraint_index_chirho@.contains_key(v) && 0 <= t < self.constraint_index_chirho@[v]@.len()
                    implies self.constraint_index_chirho@[v]@[t] < self.constraints_chirho@.len() by {
                assert(old(self).constraint_index_chirho@[v]@[t] < old(self).constraints_chirho@.len());
            }
        }
        let ghost mid = *self;
        self.index_push_chirho(v1, idx_chirho);
        let ghost mid2 = *self;
        self.index_push_chirho(v2, idx_chirho);
        proof {
            assert forall|j: int| 0 <= j < self.constraints_chirho@.len() implies #[trigger] self.indexed(j) by {
                let c = self.constraints_chirho@[j];
                if j < idx_chirho {
                    assert(old(self).indexed(j));
                    assert(c == old(self).constraints_chirho@[j]);
                    assert(mid.constraint_index_chirho@[c.var1_chirho]@.contains(j as usize));
                    assert(mid2.constraint_index_chirho@[c.var1_chirho]@.contains(j as usize));
                    assert(mid.constraint_index_chirho@[c.var2_chirho]@.contains(j as usize));
                    assert(mid2.constraint_index_chirho@[c.var2_chirho]@.contains(j as usize));
                } else {
                    assert(c == constraint_chirho);
                    assert(mid2.constraint_index_chirho@[v1]@.contains(idx_chirho));
                }
            }
        }
    }

    /// A variable's domain (all 64 values when it has none).
    pub fn domain_chirho(&self, var_chirho: VarIdChirho) -> (r: DomainChirho)
        ensures
            r.0 == dom_of(self.doms(), var_chirho),
    {
        match self.domains_chirho.get(&var_chirho) {
            Some(d) => *d,
            None => DomainChirho::full_chirho(),
        }
    }

    /// Replace a variable's domain; false when the new domain is empty.
    pub fn set_domain_chirho(&mut self, var_chirho: VarIdChirho, domain_chirho: DomainChirho) -> (r: bool)
        requires
            old(self).wf(),
        ensures
            final(self).wf(),
            final(self).doms() == old(self).doms().insert(var_chirho, domain_chirho),
            final(self).cs() == old(self).cs(),
            r == (domain_chirho.0 != 0),
    {
        self.domains_chirho.insert(var_chirho, domain_chirho);
        proof {
            assert forall|j: int| 0 <= j < self.constraints_chirho@.len() implies #[trigger] self.indexed(j) by {
                assert(old(self).indexed(j));
            }
        }
        !domain_chirho.is_empty_chirho()
    }

    /// Arc consistency (AC-3): narrow each domain to the values that every
    /// constraint supports; false as soon as a domain becomes empty.
    pub fn propagate_chirho(&mut self) -> (r: bool)
        requires
            old(self).wf(),
        ensures
            final(self).wf(),
            final(self).cs() == old(self).cs(),
            narrower(final(self).doms(), old(self).doms()),
            keeps_solutions(old(self).doms(), final(self).doms(), old(self).cs()),
            keeps_consistent_narrowings(old(self).doms(), final(self).doms(), old(self).cs()),
            forall|v: VarIdChirho| #[trigger] final(self).doms().contains_key(v)
                ==> old(self).doms().contains_key(v) || mentions(old(self).cs(), v),
            !r ==> exists|v: VarIdChirho| dom_of(final(self).doms(), v) == 0,
            !r ==> forall|sigma: spec_fn(VarIdChirho) -> u32| !#[trigger] is_solution(sigma, old(self).doms(), old(self).cs()),
            r && no_self_loops(old(self).cs()) ==> arc_consistent(final(self).doms(), old(self).cs()),
    {
        let n = self.constraints_chirho.len();
        let ghost cs0 = self.cs();
        let ghost doms0 = self.doms();
        let mut queue: VecDeque<(usize, bool)> = VecDeque::new();
        let mut i: usize = 0;
        while i < n
            invariant
                i <= n,
                self.wf(),
                self.cs() == cs0,
                self.doms() == doms0,
                n == cs0.len(),
                forall|k: int| 0 <= k < queue@.len() ==> (#[trigger] queue@[k]).0 < n,
                forall|j: int, d: bool| 0 <= j < i ==> #[trigger] queue@.contains((j as usize, d)),
            decreases n - i,
        {
            queue.push_back((i, true));
            queue.push_back((i, false));
            i = i + 1;
        }
        while queue.len() > 0
            invariant
                cs0 == old(self).cs(),
                doms0 == old(self).doms(),
                self.wf(),
                self.cs() == cs0,
                n == cs0.len(),
                forall|k: int| 0 <= k < queue@.len() ==> (#[trigger] queue@[k]).0 < n,
                narrower(self.doms(), doms0),
                keeps_solutions(doms0, self.doms(), cs0),
                keeps_consistent_narrowings(doms0, self.doms(), cs0),
                forall|v: VarIdChirho| #[trigger] self.doms().contains_key(v) ==> doms0.contains_key(v) || mentions(cs0, v),
                no_self_loops(cs0) ==> forall|j: int, d: bool|
                    0 <= j < n ==> queue@.contains((j as usize, d)) || #[trigger] arc_ok(self.doms(), cs0[j], d),
            decreases domain_measure(self.doms(), cs0, n as nat), queue@.len(),
        {
            let ghost q = queue@;
            let ghost doms = self.doms();
            let (idx, rf) = queue.pop_front().unwrap();
            let c = &self.constraints_chirho[idx];
            let var = if rf { c.var1_chirho } else { c.var2_chirho };
            let other = if rf { c.var2_chirho } else { c.var1_chirho };
            let domain = self.domain_chirho(var);
            let other_domain = self.domain_chirho(other);
            let new_domain = revise_chirho(c, rf, domain, other_domain);
            proof {
                assert(cs0[idx as int] == *c);
                assert(var == arc_var(cs0[idx as int], rf));
                assert(other == arc_other(cs0[idx as int], rf));
            }
            if new_domain.0 != domain.0 {
                proof {
                    lemma_revise_keeps(doms0, doms, cs0, idx as int, rf, new_domain.0);
                    lemma_domain_measure_mono(doms, doms.insert(var, new_domain), cs0, n as nat, var);
                    assert(cs0[idx as int].var1_chirho == var || cs0[idx as int].var2_chirho == var);
                }
                if !self.set_domain_chirho(var, new_domain) {
                    proof {
                        assert(dom_of(self.doms(), var) == 0);
                        lemma_zero_iff_no_bits(0);
                        assert forall|sigma: spec_fn(VarIdChirho) -> u32| !#[trigger] is_solution(sigma, doms0, cs0) by {
                            if is_solution(sigma, doms0, cs0) {
                                assert(is_solution(sigma, self.doms(), cs0));
                                assert(bit64(dom_of(self.doms(), var), sigma(var) as int));
                            }
                        }
                    }
                    return false;
                }
                let ghost q1 = queue@;
                let ghost doms2 = self.doms();
                match self.constraint_index_chirho.get(&var) {
                    Some(list) => {
                        proof {
                            assert forall|k: int| 0 <= k < list.len() implies #[trigger] list@[k] < n by {
                                assert(self.constraint_index_chirho@[var]@[k] < self.constraints_chirho@.len());
                            }
                        }
                        let mut t: usize = 0;
                        while t < list.len()
                            invariant
                                t <= list.len(),
                                self.wf(),
                                self.cs() == cs0,
                                self.doms() == doms2,
                                n == cs0.len(),
                                0 <= idx < n,
                                list@ == self.constraint_index_chirho@[var]@,
                                forall|k: int| 0 <= k < list.len() ==> #[trigger] list@[k] < n,
                                forall|k: int| 0 <= k < queue@.len() ==> (#[trigger] queue@[k]).0 < n,
                                queue@.len() >= q1.len(),
                                forall|k: int| 0 <= k < q1.len() ==> #[trigger] queue@[k] == q1[k],
                                forall|s: int| 0 <= s < t && list@[s] != idx
                                    ==> queue@.contains(#[trigger] requeue_arc(cs0[list@[s] as int], list@[s] as int, var)),
                            decreases list.len() - t,
                        {
                            let oi = list[t];
                            if oi != idx {
                                let c2 = &self.constraints_chirho[oi];
                                let back = c2.var1_chirho != var;
                                let ghost qb = queue@;
                                queue.push_back((oi, back));
                                proof {
                                    assert(cs0[oi as int] == *c2);
                                    assert forall|k: int| 0 <= k < q1.len() implies #[trigger] queue@[k] == q1[k] by {
                                        assert(qb[k] == q1[k]);
                                    }
                                }
                            }
                            t = t + 1;
                        }
                        proof {
                            assert forall|j: int|
                                0 <= j < cs0.len() && j != idx && (cs0[j].var1_chirho == var || cs0[j].var2_chirho == var)
                                    implies queue@.contains(#[trigger] requeue_arc(cs0[j], j, var)) by {
                                assert(self.indexed(j));
                                assert(list@.contains(j as usize));
                                let s = choose|s: int| 0 <= s < list.len() && list@[s] == j as usize;
                                assert(list@[s] != idx);
                            }
                        }
                    }
                    None => {
                        proof {
                            assert forall|j: int|
                                0 <= j < cs0.len() && j != idx && (cs0[j].var1_chirho == var || cs0[j].var2_chirho == var)
                                    implies queue@.contains(#[trigger] requeue_arc(cs0[j], j, var)) by {
                                assert(self.indexed(j));
                            }
                        }
                    }
                }
                proof {
                    if no_self_loops(cs0) {
                        lemma_arcs_requeued(doms, cs0, q, queue@, idx as int, rf, new_domain.0);
                    }
                }
            } else {
                proof {
                    assert forall|a: int| #[trigger] bit64(dom_of(doms, arc_var(cs0[idx as int], rf)), a) implies exists|b: int|
                        #[trigger] bit64(dom_of(doms, arc_other(cs0[idx as int], rf)), b) && pair_allowed(cs0[idx as int], rf, a, b) by {
                        assert(bit64(new_domain.0, a));
                    }
                    assert(arc_ok(doms, cs0[idx as int], rf));
                    if no_self_loops(cs0) {
                        lemma_arcs_unchanged(doms, cs0, q, idx as int, rf);
                    }
                }
            }
        }
        proof {
            if no_self_loops(cs0) {
                assert forall|j: int, d: bool| 0 <= j < cs0.len() implies #[trigger] arc_ok(self.doms(), cs0[j], d) by {
                    if queue@.contains((j as usize, d)) {
                        let k = choose|k: int| 0 <= k < queue@.len() && queue@[k] == (j as usize, d);
                    }
                }
            }
        }
        true
    }
    /// Every variable that has a domain has exactly one value left.
    pub fn is_solved_chirho(&self) -> (r: bool)
        ensures
            r == forall|v: VarIdChirho| #[trigger] self.doms().contains_key(v) ==> is_single64(self.doms()[v].0),
    {
        let ghost s = spec_hash_map_iter(&self.domains_chirho).remaining();
        let ghost mut seen: int = 0;
        let mut all = true;
        for pair in it: self.domains_chirho.iter()
            invariant
                it.seq() == s,
                seen == it.index(),
                all == forall|i: int| 0 <= i < seen ==> is_single64(#[trigger] s[i].1.0),
        {
            let (_k, d) = pair;
            if !d.is_singleton_chirho() {
                all = false;
            }
            proof {
                seen = seen + 1;
            }
        }
        proof {
            assert(seen == s.len());
            if all {
                assert forall|v: VarIdChirho| #[trigger] self.doms().contains_key(v) implies is_single64(self.doms()[v].0) by {
                    assert(s.contains((&v, &self.domains_chirho@[v])));
                    let i = choose|i: int| 0 <= i < s.len() && s[i] == (&v, &self.domains_chirho@[v]);
                    assert(is_single64(s[i].1.0));
                }
            } else {
                let i = choose|i: int| 0 <= i < seen && !is_single64(#[trigger] s[i].1.0);
                assert(self.domains_chirho@.contains_key(*s[i].0));
                assert(self.domains_chirho@[*s[i].0] == *s[i].1);
                assert(!is_single64(self.doms()[*s[i].0].0));
            }
        }
        all
    }

    /// When every domain is a single value, the value of each variable.
    pub fn get_solution_chirho(&self) -> (r: Option<HashMap<VarIdChirho, u32>>)
        ensures
            r is Some == forall|v: VarIdChirho| #[trigger] self.doms().contains_key(v) ==> is_single64(self.doms()[v].0),
            r matches Some(m) ==> m@.dom() == self.doms().dom() && forall|v: VarIdChirho| #[trigger] m@.contains_key(v)
                ==> m@[v] == u64_trailing_zeros(self.doms()[v].0),
    {
        if !self.is_solved_chirho() {
            return None;
        }
        let ghost s = spec_hash_map_iter(&self.domains_chirho).remaining();
        let ghost mut seen: int = 0;
        let mut m: HashMap<VarIdChirho, u32> = HashMap::new();
        for pair in it: self.domains_chirho.iter()
            invariant
                it.seq() == s,
                seen == it.index(),
                forall|v: VarIdChirho| #[trigger] self.doms().contains_key(v) ==> is_single64(self.doms()[v].0),
                forall|i: int| 0 <= i < s.len() ==> self.domains_chirho@.contains_key(*(#[trigger] s[i]).0)
                    && self.domains_chirho@[*s[i].0] == *s[i].1,
                forall|v: VarIdChirho| #[trigger] m@.contains_key(v) ==> self.domains_chirho@.contains_key(v)
                    && m@[v] == u64_trailing_zeros(self.domains_chirho@[v].0),
                forall|i: int| 0 <= i < seen ==> m@.contains_key(*(#[trigger] s[i]).0),
        {
            let (k, d) = pair;
            proof {
                assert(pair == s[seen]);
                assert(self.domains_chirho@.contains_key(*k));
                assert(self.domains_chirho@[*k] == *d);
                assert(self.doms().contains_key(*k));
            }
            let val = match d.get_singleton_chirho() {
                Some(x) => x,
                None => 0,
            };
            m.insert(*k, val);
            proof {
                seen = seen + 1;
            }
        }
        proof {
            assert(seen == s.len());
            assert forall|v: VarIdChirho| self.doms().contains_key(v) implies #[trigger] m@.contains_key(v) by {
                assert(s.contains((&v, &self.domains_chirho@[v])));
                let i = choose|i: int| 0 <= i < s.len() && s[i] == (&v, &self.domains_chirho@[v]);
                assert(m@.contains_key(*s[i].0));
            }
            assert(m@.dom() =~= self.doms().dom());
        }
        Some(m)
    }
}

impl Default for ConstraintStoreChirho {
    fn default() -> (r: Self)
        ensures
            r.wf(),
            r.doms() == Map::<VarIdChirho, DomainChirho>::empty(),
            r.cs() == Seq::<BinaryConstraintChirho>::empty(),
    {
        Self::new()
    }
}

} // verus!
