//! Symbolic domains built from constraints that have a direct circuit form
//! (ranges, residues, disequalities, bounds), materialised 64 values at a time.

use vstd::prelude::*;
use crate::bits::{bit64, lemma_or_bits, lemma_and_bits, lemma_shl_bits, lemma_zero_iff_no_bits, lemma_low_mask_bits, low_mask64};
use crate::hardware::BitVec64Chirho;

verus! {

/// One constraint on a value.
#[derive(Debug, Clone, Copy, PartialEq, Eq)]
pub enum SymbolicOpChirho {
    /// `lo <= x <= hi`.
    RangeChirho { lo_chirho: u32, hi_chirho: u32 },
    /// `x % modulus == remainder`.
    ModularChirho { remainder_chirho: u32, modulus_chirho: u32 },
    /// `x != value`.
    NotEqualChirho { value_chirho: u32 },
    /// `x <= bound`.
    LessEqualChirho { bound_chirho: u32 },
    /// `x >= bound`.
    GreaterEqualChirho { bound_chirho: u32 },
}

/// `v` meets the constraint.
pub open spec fn sat(op: SymbolicOpChirho, v: u32) -> bool {
    match op {
        SymbolicOpChirho::RangeChirho { lo_chirho, hi_chirho } => lo_chirho <= v <= hi_chirho,
        SymbolicOpChirho::ModularChirho { remainder_chirho, modulus_chirho } => v % modulus_chirho == remainder_chirho,
        SymbolicOpChirho::NotEqualChirho { value_chirho } => v != value_chirho,
        SymbolicOpChirho::LessEqualChirho { bound_chirho } => v <= bound_chirho,
        SymbolicOpChirho::GreaterEqualChirho { bound_chirho } => v >= bound_chirho,
    }
}

/// `v` meets every constraint of `cs`.
pub open spec fn sat_all(cs: Seq<SymbolicOpChirho>, v: u32) -> bool {
    forall|i: int| 0 <= i < cs.len() ==> #[trigger] sat(cs[i], v)
}

/// Every residue constraint has a positive modulus.
pub open spec fn moduli_positive(cs: Seq<SymbolicOpChirho>) -> bool {
    forall|i: int| 0 <= i < cs.len() ==> (#[trigger] cs[i] matches SymbolicOpChirho::ModularChirho { modulus_chirho, .. } ==> modulus_chirho > 0)
}

/// A bound on the value (a range, `<=` or `>=`).
pub open spec fn is_bound(op: SymbolicOpChirho) -> bool {
    op is RangeChirho || op is LessEqualChirho || op is GreaterEqualChirho
}

/// The largest lower bound that the bounds of `cs` give, starting from 0.
pub open spec fn lower_of(cs: Seq<SymbolicOpChirho>) -> u32
    decreases cs.len(),
{
    if cs.len() == 0 {
        0
    } else {
        let l = lower_of(cs.drop_last());
        let b = match cs.last() {
            SymbolicOpChirho::RangeChirho { lo_chirho, .. } => lo_chirho,
            SymbolicOpChirho::GreaterEqualChirho { bound_chirho } => bound_chirho,
            _ => 0,
        };
        if l > b { l } else { b }
    }
}

/// The smallest upper bound that the bounds of `cs` give, starting from `top`.
pub open spec fn upper_of(cs: Seq<SymbolicOpChirho>, top: u32) -> u32
    decreases cs.len(),
{
    if cs.len() == 0 {
        top
    } else {
        let h = upper_of(cs.drop_last(), top);
        let b = match cs.last() {
            SymbolicOpChirho::RangeChirho { hi_chirho, .. } => hi_chirho,
            SymbolicOpChirho::LessEqualChirho { bound_chirho } => bound_chirho,
            _ => top,
        };
        if h < b { h } else { b }
    }
}

/// Gate estimate of one constraint.
pub open spec fn op_cost(op: SymbolicOpChirho) -> nat {
    match op {
        SymbolicOpChirho::RangeChirho { .. } => 12,
        SymbolicOpChirho::ModularChirho { modulus_chirho, .. } => if modulus_chirho <= 8 { 4 } else { 32 },
        SymbolicOpChirho::NotEqualChirho { .. } => 8,
        SymbolicOpChirho::LessEqualChirho { .. } => 6,
        SymbolicOpChirho::GreaterEqualChirho { .. } => 6,
    }
}

/// Total cost of the first `n` constraints.
pub open spec fn ops_cost(cs: Seq<SymbolicOpChirho>, n: nat) -> nat
    decreases n,
{
    if n == 0 { 0 } else { ops_cost(cs, (n - 1) as nat) + op_cost(cs[n - 1]) }
}

proof fn lemma_ops_cost_bound(cs: Seq<SymbolicOpChirho>, n: nat)
    ensures
        ops_cost(cs, n) <= 32 * n,
    decreases n,
{
    if n > 0 {
        lemma_ops_cost_bound(cs, (n - 1) as nat);
    }
}

/// A value set given by a universe `0..universe` and constraints that must all hold.
#[derive(Debug, Clone)]
pub struct HwSymbolicDomainChirho {
    /// The constraints, all of which must hold.
    pub constraints_chirho: Vec<SymbolicOpChirho>,
    /// The last materialisation, while the constraints have not changed.
    cached_bits_chirho: Option<BitVec64Chirho>,
    universe_chirho: u32,
}

impl HwSymbolicDomainChirho {
    /// The universe size.
    pub closed spec fn universe(&self) -> u32 {
        self.universe_chirho
    }

    /// The constraints.
    pub closed spec fn cs(&self) -> Seq<SymbolicOpChirho> {
        self.constraints_chirho@
    }

    /// `v` lies in the universe and meets every constraint.
    pub open spec fn has(&self, v: u32) -> bool {
        v < self.universe() && sat_all(self.cs(), v)
    }

    /// The bits below 64 (and below the universe) of the values of the domain.
    pub open spec fn bits_ok(&self, b: u64) -> bool {
        forall|i: int| #[trigger] bit64(b, i) == (0 <= i < 64 && self.has(i as u32))
    }

    /// Residue constraints are well defined and the cache, if any, is current.
    pub closed spec fn wf(&self) -> bool {
        &&& moduli_positive(self.constraints_chirho@)
        &&& (self.cached_bits_chirho matches Some(b) ==> self.bits_ok(b.0))
    }

    /// No constraint over `0..universe`.
    pub fn new_chirho(universe_chirho: u32) -> (r: Self)
        ensures
            r.wf(),
            r.universe() == universe_chirho,
            r.cs() == Seq::<SymbolicOpChirho>::empty(),
    {
        Self { constraints_chirho: Vec::new(), cached_bits_chirho: None, universe_chirho }
    }

    /// Add `lo <= x <= hi`.
    pub fn with_range_chirho(self, lo_chirho: u32, hi_chirho: u32) -> (r: Self)
        requires
            self.wf(),
        ensures
            r.wf(),
            r.universe() == self.universe(),
            r.cs() == self.cs().push(SymbolicOpChirho::RangeChirho { lo_chirho, hi_chirho }),
    {
        let mut s = self;
        s.constraints_chirho.push(SymbolicOpChirho::RangeChirho { lo_chirho, hi_chirho });
        s.cached_bits_chirho = None;
        s
    }

    /// Add `x % modulus == remainder % modulus`.
    pub fn with_modular_chirho(self, remainder_chirho: u32, modulus_chirho: u32) -> (r: Self)
        requires
            self.wf(),
            modulus_chirho > 0,
        ensures
            r.wf(),
            r.universe() == self.universe(),
            r.cs() == self.cs().push(
                SymbolicOpChirho::ModularChirho { remainder_chirho: remainder_chirho % modulus_chirho, modulus_chirho },
            ),
    {
        let mut s = self;
        s.constraints_chirho.push(SymbolicOpChirho::ModularChirho { remainder_chirho: remainder_chirho % modulus_chirho, modulus_chirho });
        s.cached_bits_chirho = None;
        s
    }

    /// Add `x != value`.
    pub fn with_not_equal_chirho(self, value_chirho: u32) -> (r: Self)
        requires
            self.wf(),
        ensures
            r.wf(),
            r.universe() == self.universe(),
            r.cs() == self.cs().push(SymbolicOpChirho::NotEqualChirho { value_chirho }),
    {
        let mut s = self;
        s.constraints_chirho.push(SymbolicOpChirho::NotEqualChirho { value_chirho });
        s.cached_bits_chirho = None;
        s
    }

    /// Does `value` lie in the universe and meet every constraint?
    pub fn contains_hw_chirho(&self, value_chirho: u32) -> (r: bool)
        requires
            self.wf(),
        ensures
            r == self.has(value_chirho),
    {
        if value_chirho >= self.universe_chirho {
            return false;
        }
        let mut i: usize = 0;
        while i < self.constraints_chirho.len()
            invariant
                i <= self.constraints_chirho.len(),
                moduli_positive(self.constraints_chirho@),
                forall|k: int| 0 <= k < i ==> #[trigger] sat(self.constraints_chirho@[k], value_chirho),
            decreases self.constraints_chirho.len() - i,
        {
            let c = self.constraints_chirho[i];
            proof {
                assert(c == self.constraints_chirho@[i as int]);
            }
            let satisfied = match c {
                SymbolicOpChirho::RangeChirho { lo_chirho, hi_chirho } => value_chirho >= lo_chirho && value_chirho <= hi_chirho,
                SymbolicOpChirho::ModularChirho { remainder_chirho, modulus_chirho } => value_chirho % modulus_chirho == remainder_chirho,
                SymbolicOpChirho::NotEqualChirho { value_chirho: v } => value_chirho != v,
                SymbolicOpChirho::LessEqualChirho { bound_chirho } => value_chirho <= bound_chirho,
                SymbolicOpChirho::GreaterEqualChirho { bound_chirho } => value_chirho >= bound_chirho,
            };
            if !satisfied {
                proof {
                    assert(!sat(self.constraints_chirho@[i as int], value_chirho));
                }
                return false;
            }
            i = i + 1;
        }
        true
    }

    /// The values below 64 of the domain as a word (taken from the cache when it is there).
    pub fn materialize_hw_chirho(&mut self) -> (r: BitVec64Chirho)
        requires
            old(self).wf(),
        ensures
            final(self).wf(),
            final(self).universe() == old(self).universe(),
            final(self).cs() == old(self).cs(),
            old(self).bits_ok(r.0),
    {
        if let Some(cached) = self.cached_bits_chirho {
            return cached;
        }
        let max_val = if self.universe_chirho < 64 { self.universe_chirho } else { 64 };
        let mut bits: u64 = 0;
        let mut value: u32 = 0;
        proof {
            lemma_zero_iff_no_bits(0);
        }
        while value < max_val
            invariant
                value <= max_val <= 64,
                max_val == if self.universe() < 64 { self.universe() } else { 64 },
                self.wf(),
                forall|i: int| #[trigger] bit64(bits, i) == (0 <= i < value && self.has(i as u32)),
            decreases max_val - value,
        {
            let ghost prev = bits;
            if self.contains_hw_chirho(value) {
                bits = bits | (1u64 << value);
                proof {
                    assert forall|i: int| #[trigger] bit64(bits, i) == (0 <= i < value + 1 && self.has(i as u32)) by {
                        lemma_or_bits(prev, 1u64 << value, i);
                        lemma_shl_bits(value as u64, i);
                    }
                }
            } else {
                proof {
                    assert forall|i: int| #[trigger] bit64(bits, i) == (0 <= i < value + 1 && self.has(i as u32)) by {
                        if i == value {
                            assert(!self.has(i as u32));
                        }
                    }
                }
            }
            value = value + 1;
        }
        let result = BitVec64Chirho(bits);
        proof {
            assert forall|i: int| #[trigger] bit64(bits, i) == (0 <= i < 64 && self.has(i as u32)) by {
                if 0 <= i < 64 && self.has(i as u32) {
                    assert(i < max_val);
                }
            }
        }
        self.cached_bits_chirho = Some(result);
        result
    }

    /// Both domains at once: the constraints of both, over the smaller universe,
    /// with all bounds folded into one range placed first.
    pub fn intersect_chirho(&self, other_chirho: &Self) -> (r: Self)
        requires
            self.wf(),
            other_chirho.wf(),
        ensures
            r.wf(),
            r.universe() == if self.universe() < other_chirho.universe() { self.universe() } else { other_chirho.universe() },
            r.cs() == seq![SymbolicOpChirho::RangeChirho {
                lo_chirho: lower_of(self.cs() + other_chirho.cs()),
                hi_chirho: upper_of(self.cs() + other_chirho.cs(),
                    if r.universe() == 0 { 0u32 } else { (r.universe() - 1) as u32 }),
            }] + (self.cs() + other_chirho.cs()).filter(|c: SymbolicOpChirho| !is_bound(c)),
            forall|v: u32| #[trigger] r.has(v) == (self.has(v) && other_chirho.has(v)),
    {
        let universe = if self.universe_chirho < other_chirho.universe_chirho { self.universe_chirho } else { other_chirho.universe_chirho };
        let mut all: Vec<SymbolicOpChirho> = Vec::new();
        let mut i: usize = 0;
        while i < self.constraints_chirho.len()
            invariant
                i <= self.constraints_chirho.len(),
                all@ == self.constraints_chirho@.subrange(0, i as int),
            decreases self.constraints_chirho.len() - i,
        {
            all.push(self.constraints_chirho[i]);
            i = i + 1;
        }
        let mut j: usize = 0;
        while j < other_chirho.constraints_chirho.len()
            invariant
                j <= other_chirho.constraints_chirho.len(),
                all@ == self.constraints_chirho@ + other_chirho.constraints_chirho@.subrange(0, j as int),
            decreases other_chirho.constraints_chirho.len() - j,
        {
            all.push(other_chirho.constraints_chirho[j]);
            j = j + 1;
        }
        assert(other_chirho.constraints_chirho@.subrange(0, other_chirho.constraints_chirho@.len() as int) == other_chirho.constraints_chirho@);
        let ghost cs = all@;
        let top = if universe == 0 { 0 } else { universe - 1 };
        let (lo, hi, rest) = Self::simplify_chirho(&all, top);
        let mut constraints: Vec<SymbolicOpChirho> = Vec::new();
        constraints.push(SymbolicOpChirho::RangeChirho { lo_chirho: lo, hi_chirho: hi });
        let mut k: usize = 0;
        while k < rest.len()
            invariant
                k <= rest.len(),
                constraints@ == seq![SymbolicOpChirho::RangeChirho { lo_chirho: lo, hi_chirho: hi }] + rest@.subrange(0, k as int),
            decreases rest.len() - k,
        {
            constraints.push(rest[k]);
            k = k + 1;
        }
        assert(rest@.subrange(0, rest@.len() as int) == rest@);
        let r = Self { constraints_chirho: constraints, cached_bits_chirho: None, universe_chirho: universe };
        proof {
            assert(moduli_positive(cs)) by {
                assert forall|t: int| 0 <= t < cs.len() implies (#[trigger] cs[t] matches SymbolicOpChirho::ModularChirho { modulus_chirho, .. } ==> modulus_chirho > 0) by {
                    if t < self.constraints_chirho@.len() {
                        assert(cs[t] == self.constraints_chirho@[t]);
                    } else {
                        assert(cs[t] == other_chirho.constraints_chirho@[t - self.constraints_chirho@.len()]);
                    }
                }
            }
            assert forall|t: int| 0 <= t < r.constraints_chirho@.len() implies (#[trigger] r.constraints_chirho@[t] matches SymbolicOpChirho::ModularChirho { modulus_chirho, .. } ==> modulus_chirho > 0) by {
                if t > 0 {
                    assert(r.constraints_chirho@[t] == rest@[t - 1]);
                    assert(cs.filter(|c: SymbolicOpChirho| !is_bound(c)).contains(rest@[t - 1]));
                    cs.lemma_filter_contains_rev(|c: SymbolicOpChirho| !is_bound(c), rest@[t - 1]);
                    let u = choose|u: int| 0 <= u < cs.len() && cs[u] == rest@[t - 1];
                    assert(cs[u] matches SymbolicOpChirho::ModularChirho { modulus_chirho, .. } ==> modulus_chirho > 0);
                }
            }
            assert forall|v: u32| #[trigger] r.has(v) == (self.has(v) && other_chirho.has(v)) by {
                lemma_bounds_fold(cs, top, v);
                lemma_filter_sat(cs, v);
                assert(sat_all(r.constraints_chirho@, v) == (lo <= v <= hi && sat_all(rest@, v))) by {
                    assert(r.constraints_chirho@[0] == SymbolicOpChirho::RangeChirho { lo_chirho: lo, hi_chirho: hi });
                    if lo <= v <= hi && sat_all(rest@, v) {
                        assert forall|t: int| 0 <= t < r.constraints_chirho@.len() implies #[trigger] sat(r.constraints_chirho@[t], v) by {
                            if t > 0 {
                                assert(r.constraints_chirho@[t] == rest@[t - 1]);
                            }
                        }
                    }
                    if sat_all(r.constraints_chirho@, v) {
                        assert(sat(r.constraints_chirho@[0], v));
                        assert forall|t: int| 0 <= t < rest@.len() implies #[trigger] sat(rest@[t], v) by {
                            assert(r.constraints_chirho@[t + 1] == rest@[t]);
                            assert(sat(r.constraints_chirho@[t + 1], v));
                        }
                    }
                }
                assert(sat_all(cs, v) == (sat_all(self.constraints_chirho@, v) && sat_all(other_chirho.constraints_chirho@, v))) by {
                    if sat_all(cs, v) {
                        assert forall|t: int| 0 <= t < self.constraints_chirho@.len() implies #[trigger] sat(self.constraints_chirho@[t], v) by {
                            assert(cs[t] == self.constraints_chirho@[t]);
                        }
                        assert forall|t: int| 0 <= t < other_chirho.constraints_chirho@.len() implies #[trigger] sat(other_chirho.constraints_chirho@[t], v) by {
                            assert(cs[t + self.constraints_chirho@.len()] == other_chirho.constraints_chirho@[t]);
                        }
                    }
                    if sat_all(self.constraints_chirho@, v) && sat_all(other_chirho.constraints_chirho@, v) {
                        assert forall|t: int| 0 <= t < cs.len() implies #[trigger] sat(cs[t], v) by {
                            if t < self.constraints_chirho@.len() {
                                assert(cs[t] == self.constraints_chirho@[t]);
                            } else {
                                assert(cs[t] == other_chirho.constraints_chirho@[t - self.constraints_chirho@.len()]);
                            }
                        }
                    }
                }
            }
        }
        r
    }

    /// Fold the bounds of `cs` into one range `[lo, hi]` (with `hi` at most
    /// `top`) and keep the other constraints in order.
    fn simplify_chirho(cs: &Vec<SymbolicOpChirho>, top: u32) -> (r: (u32, u32, Vec<SymbolicOpChirho>))
        ensures
            r.0 == lower_of(cs@),
            r.1 == upper_of(cs@, top),
            r.2@ == cs@.filter(|c: SymbolicOpChirho| !is_bound(c)),
    {
        let mut lo: u32 = 0;
        let mut hi: u32 = top;
        let mut rest: Vec<SymbolicOpChirho> = Vec::new();
        let mut i: usize = 0;
        while i < cs.len()
            invariant
                i <= cs.len(),
                lo == lower_of(cs@.subrange(0, i as int)),
                hi == upper_of(cs@.subrange(0, i as int), top),
                hi <= top,
                rest@ == cs@.subrange(0, i as int).filter(|c: SymbolicOpChirho| !is_bound(c)),
            decreases cs.len() - i,
        {
            let c = cs[i];
            proof {
                let s = cs@.subrange(0, i + 1);
                assert(s.drop_last() == cs@.subrange(0, i as int));
                assert(s.last() == c);
                cs@.subrange(0, i as int).lemma_filter_push(c, |c: SymbolicOpChirho| !is_bound(c));
                assert(cs@.subrange(0, i as int).push(c) == s);
            }
            match c {
                SymbolicOpChirho::RangeChirho { lo_chirho: l, hi_chirho: h } => {
                    lo = if lo > l { lo } else { l };
                    hi = if hi < h { hi } else { h };
                },
                SymbolicOpChirho::LessEqualChirho { bound_chirho } => {
                    hi = if hi < bound_chirho { hi } else { bound_chirho };
                },
                SymbolicOpChirho::GreaterEqualChirho { bound_chirho } => {
                    lo = if lo > bound_chirho { lo } else { bound_chirho };
                },
                other => {
                    rest.push(other);
                },
            }
            i = i + 1;
        }
        assert(cs@.subrange(0, cs@.len() as int) == cs@);
        (lo, hi, rest)
    }

    /// Gate estimate: per constraint, its comparators or table, plus 64 output bits.
    pub fn hw_cost_chirho(&self) -> (r: u32)
        requires
            self.cs().len() <= 40_000_000,
        ensures
            r == ops_cost(self.cs(), self.cs().len()) + 64 * self.cs().len(),
    {
        let mut cost: u32 = 0;
        let mut i: usize = 0;
        while i < self.constraints_chirho.len()
            invariant
                i <= self.constraints_chirho.len() <= 40_000_000,
                cost == ops_cost(self.constraints_chirho@, i as nat),
            decreases self.constraints_chirho.len() - i,
        {
            proof {
                lemma_ops_cost_bound(self.constraints_chirho@, i as nat);
            }
            let c = self.constraints_chirho[i];
            let add: u32 = match c {
                SymbolicOpChirho::RangeChirho { .. } => 12,
                SymbolicOpChirho::ModularChirho { modulus_chirho, .. } => if modulus_chirho <= 8 { 4 } else { 32 },
                SymbolicOpChirho::NotEqualChirho { .. } => 8,
                SymbolicOpChirho::LessEqualChirho { .. } => 6,
                SymbolicOpChirho::GreaterEqualChirho { .. } => 6,
            };
            cost = cost + add;
            i = i + 1;
        }
        proof {
            lemma_ops_cost_bound(self.constraints_chirho@, self.constraints_chirho@.len());
        }
        cost = cost + 64 * (self.constraints_chirho.len() as u32);
        cost
    }
}

/// The bounds of `cs` folded into `[lower_of, upper_of]` accept exactly the
/// values that meet every bound and lie at or below `top`.
proof fn lemma_bounds_fold(cs: Seq<SymbolicOpChirho>, top: u32, v: u32)
    ensures
        (lower_of(cs) <= v <= upper_of(cs, top)) == (v <= top && forall|i: int| 0 <= i < cs.len() && is_bound(#[trigger] cs[i]) ==> sat(cs[i], v)),
    decreases cs.len(),
{
    if cs.len() > 0 {
        let init = cs.drop_last();
        lemma_bounds_fold(init, top, v);
        assert forall|i: int| 0 <= i < cs.len() - 1 implies #[trigger] cs[i] == init[i] by {}
        if (v <= top && forall|i: int| 0 <= i < cs.len() && is_bound(#[trigger] cs[i]) ==> sat(cs[i], v)) {
            assert forall|i: int| 0 <= i < init.len() && is_bound(#[trigger] init[i]) implies sat(init[i], v) by {
                assert(cs[i] == init[i]);
            }
            assert(is_bound(cs[cs.len() - 1]) ==> sat(cs[cs.len() - 1], v));
        }
        if lower_of(cs) <= v <= upper_of(cs, top) {
            assert forall|i: int| 0 <= i < cs.len() && is_bound(#[trigger] cs[i]) implies sat(cs[i], v) by {
                if i < cs.len() - 1 {
                    assert(cs[i] == init[i]);
                }
            }
        }
    }
}

/// Keeping the non-bounds keeps exactly what they ask.
proof fn lemma_filter_sat(cs: Seq<SymbolicOpChirho>, v: u32)
    ensures
        sat_all(cs.filter(|c: SymbolicOpChirho| !is_bound(c)), v) == (forall|i: int| 0 <= i < cs.len() && !is_bound(#[trigger] cs[i]) ==> sat(cs[i], v)),
    decreases cs.len(),
{
    let f = |c: SymbolicOpChirho| !is_bound(c);
    if cs.len() > 0 {
        let init = cs.drop_last();
        lemma_filter_sat(init, v);
        assert(init.push(cs.last()) == cs);
        init.lemma_filter_push(cs.last(), f);
        let fi = init.filter(f);
        let fc = cs.filter(f);
        if sat_all(fc, v) {
            assert forall|i: int| 0 <= i < fi.len() implies #[trigger] sat(fi[i], v) by {
                assert(fc[i] == fi[i]);
            }
            assert forall|i: int| 0 <= i < cs.len() && !is_bound(#[trigger] cs[i]) implies sat(cs[i], v) by {
                if i < cs.len() - 1 {
                    assert(cs[i] == init[i]);
                } else {
                    assert(fc[fc.len() - 1] == cs[i]);
                }
            }
        }
        if forall|i: int| 0 <= i < cs.len() && !is_bound(#[trigger] cs[i]) ==> sat(cs[i], v) {
            assert forall|i: int| 0 <= i < init.len() && !is_bound(#[trigger] init[i]) implies sat(init[i], v) by {
                assert(cs[i] == init[i]);
            }
            assert forall|i: int| 0 <= i < fc.len() implies #[trigger] sat(fc[i], v) by {
                if i < fi.len() {
                    assert(fc[i] == fi[i]);
                } else {
                    assert(fc[i] == cs[cs.len() - 1]);
                }
            }
        }
    }
}

/// The values `x` below 64 with `x >= remainder` and `x ≡ remainder (mod modulus)`.
pub fn mod_lut_chirho(remainder_chirho: u32, modulus_chirho: u32) -> (r: BitVec64Chirho)
    requires
        remainder_chirho >= 64 || (0 < modulus_chirho && modulus_chirho <= u32::MAX - 64),
    ensures
        forall|i: int| #[trigger] bit64(r.0, i) == (0 <= i < 64 && i >= remainder_chirho
            && (i - remainder_chirho) % (modulus_chirho as int) == 0),
{
    let mut bits: u64 = 0;
    let mut val: u32 = remainder_chirho;
    proof {
        lemma_zero_iff_no_bits(0);
        if remainder_chirho < 64 {
            vstd::arithmetic::div_mod::lemma_small_mod(0, modulus_chirho as nat);
        }
    }
    while val < 64
        invariant
            remainder_chirho >= 64 || (0 < modulus_chirho && modulus_chirho <= u32::MAX - 64),
            val >= remainder_chirho,
            val < 64 ==> (val - remainder_chirho) % (modulus_chirho as int) == 0,
            forall|i: int| #[trigger] bit64(bits, i) == (0 <= i < 64 && remainder_chirho <= i < val
                && (i - remainder_chirho) % (modulus_chirho as int) == 0),
        decreases if val < 64 { 64 - val } else { 0 },
    {
        proof {
            assert(remainder_chirho < 64);
        }
        let ghost prev = bits;
        bits = bits | (1u64 << val);
        proof {
            assert forall|i: int| #[trigger] bit64(bits, i) == (0 <= i < 64 && remainder_chirho <= i < val + modulus_chirho
                && (i - remainder_chirho) % (modulus_chirho as int) == 0) by {
                lemma_or_bits(prev, 1u64 << val, i);
                lemma_shl_bits(val as u64, i);
                if val < i < val + modulus_chirho && i >= remainder_chirho {
                    lemma_mod_gap(val - remainder_chirho, i - remainder_chirho, modulus_chirho as int);
                }
            }
            lemma_mod_step(val - remainder_chirho, modulus_chirho as int);
        }
        val = val + modulus_chirho;
    }
    BitVec64Chirho(bits)
}

proof fn lemma_mod_gap(a: int, b: int, m: int)
    requires
        m > 0,
        a >= 0,
        a % m == 0,
        a < b < a + m,
    ensures
        b % m != 0,
{
    vstd::arithmetic::div_mod::lemma_fundamental_div_mod(a, m);
    vstd::arithmetic::div_mod::lemma_fundamental_div_mod(b, m);
    let qa = a / m;
    let qb = b / m;
    assert(a == m * qa);
    if b % m == 0 {
        assert(b == m * qb);
        assert(m * qa < m * qb < m * qa + m);
        if qb <= qa {
            assert(m * qb <= m * qa) by (nonlinear_arith)
                requires
                    qb <= qa,
                    m > 0,
            ;
        } else {
            assert(m * qb >= m * qa + m) by (nonlinear_arith)
                requires
                    qb >= qa + 1,
                    m > 0,
            ;
        }
    }
}

proof fn lemma_mod_step(a: int, m: int)
    requires
        m > 0,
        a % m == 0,
    ensures
        (a + m) % m == 0,
{
    vstd::arithmetic::div_mod::lemma_mod_add_multiples_vanish(a, m);
    assert(a + m == m + a);
}

/// The values `lo..=hi` that lie below 64.
pub fn range_bits_chirho(lo_chirho: u32, hi_chirho: u32) -> (r: BitVec64Chirho)
    ensures
        forall|i: int| #[trigger] bit64(r.0, i) == (lo_chirho <= i <= hi_chirho && i < 64),
{
    if lo_chirho > hi_chirho || lo_chirho >= 64 {
        proof {
            lemma_zero_iff_no_bits(0);
        }
        return BitVec64Chirho::ZERO_CHIRHO();
    }
    let effective_lo = lo_chirho;
    let effective_hi = if hi_chirho < 63 { hi_chirho } else { 63 };
    let count = effective_hi - effective_lo + 1;
    if count >= 64 {
        proof {
            assert forall|i: int| #[trigger] bit64(u64::MAX, i) == (lo_chirho <= i <= hi_chirho && i < 64) by {
                lemma_low_mask_bits(64, i);
            }
        }
        BitVec64Chirho(u64::MAX)
    } else {
        assert((1u64 << count) >= 1) by (bit_vector)
            requires
                count < 64,
        ;
        let low = (1u64 << count) - 1;
        let mask = low << effective_lo;
        proof {
            assert(low == low_mask64(count as u64));
            assert forall|i: int| #[trigger] bit64(mask, i) == (lo_chirho <= i <= hi_chirho && i < 64) by {
                lemma_shifted_mask_bits(count as u64, effective_lo as u64, i);
                lemma_low_mask_bits(count as u64, i - effective_lo);
            }
        }
        BitVec64Chirho(mask)
    }
}

/// Bit `i` of `low_mask64(c) << s` is bit `i - s` of the mask (when `c + s <= 64`).
pub proof fn lemma_shifted_mask_bits(c: u64, s: u64, i: int)
    requires
        c < 64,
        s < 64,
        c + s <= 64,
    ensures
        bit64(low_mask64(c) << s, i) == (s <= i && bit64(low_mask64(c), i - s)),
{
    let m = ((1u64 << c) - 1) as u64;
    assert(low_mask64(c) == m);
    crate::bits::lemma_low_mask_bits(c, i - s);
    if 0 <= i < 64 {
        let k = i as u64;
        assert(c < 64 && s < 64 && k < 64 && c + s <= 64 ==> (((m << s) >> k) & 1u64 == 1u64 <==> (s <= k && ((m >> ((k - s) as u64)) & 1u64 == 1u64)))) by (bit_vector)
            requires
                m == ((1u64 << c) - 1) as u64,
        ;
    }
}

/// Range and residue together: `range_bits AND mod_lut`.
pub fn range_mod_hw_chirho(lo_chirho: u32, hi_chirho: u32, r_chirho: u32, m_chirho: u32) -> (r: BitVec64Chirho)
    requires
        r_chirho >= 64 || (0 < m_chirho && m_chirho <= u32::MAX - 64),
    ensures
        forall|i: int| #[trigger] bit64(r.0, i) == (lo_chirho <= i <= hi_chirho && 0 <= i < 64 && i >= r_chirho
            && (i - r_chirho) % (m_chirho as int) == 0),
{
    let range_val = range_bits_chirho(lo_chirho, hi_chirho);
    let mod_bits = mod_lut_chirho(r_chirho, m_chirho);
    let r = range_val.and_chirho(mod_bits);
    proof {
        assert forall|i: int| #[trigger] bit64(r.0, i) == (lo_chirho <= i <= hi_chirho && 0 <= i < 64 && i >= r_chirho
            && (i - r_chirho) % (m_chirho as int) == 0) by {
            lemma_and_bits(range_val.0, mod_bits.0, i);
            assert(bit64(range_val.0, i) == (lo_chirho <= i <= hi_chirho && i < 64));
            assert(bit64(mod_bits.0, i) == (0 <= i < 64 && i >= r_chirho && (i - r_chirho) % (m_chirho as int) == 0));
        }
    }
    r
}

} // verus!
