//! Hybrid domains: a variable's values held as one 64-bit word, as sparse
//! pages, as a symbolic constraint, or left unbounded; and a search state that
//! hands the variables whose values fit in one word to the bit-parallel path.

use vstd::prelude::*;
use std::collections::HashMap;
use vstd::std_specs::hash::spec_hash_map_iter;
use vstd::std_specs::iter::IteratorSpec;
use crate::bits::{bit64, lemma_and_bits, lemma_or_bits, lemma_shl_bits, lemma_zero_iff_no_bits};
use crate::hardware::BitVec64Chirho;
use crate::hardware_state::SearchStateHwChirho;
use crate::symbolic::{lemma_wf_checkable, 
    SymbolicConstraintChirho, SymbolicDomainChirho, sat, wf, same, small_range, intersect_fits,
    intersect_shape, clashing_tags, lemma_same_sat, copy_constraint_chirho,
};
use crate::paged::PagedDomainChirho;

verus! {

broadcast use {vstd::std_specs::hash::group_hash_axioms, vstd::seq_lib::lemma_seq_contains_after_push,
    vstd::array::group_array_axioms};

/// A domain that is finite (one word or sparse pages), symbolic, or unbounded.
#[derive(Debug)]
pub enum HybridDomainChirho {
    /// Values in `0..64`, one bit each.
    Small(BitVec64Chirho),
    /// A larger finite set of `u64` values.
    Large(PagedDomainChirho),
    /// Values of `i64` meeting a constraint.
    Symbolic(SymbolicDomainChirho),
    /// Every value.
    Infinite,
}

/// `x` is a value of the domain.
pub open spec fn hybrid_has(d: HybridDomainChirho, x: int) -> bool {
    match d {
        HybridDomainChirho::Small(b) => 0 <= x < 64 && bit64(b.0, x),
        HybridDomainChirho::Large(p) => 0 <= x <= u64::MAX && p.has(x as u64),
        HybridDomainChirho::Symbolic(s) => i64::MIN <= x <= i64::MAX && sat(s.constraint_chirho, x as i64),
        HybridDomainChirho::Infinite => true,
    }
}

/// A symbolic domain's constraint is well formed.
pub open spec fn hybrid_wf(d: HybridDomainChirho) -> bool {
    d matches HybridDomainChirho::Symbolic(s) ==> wf(s.constraint_chirho)
}

/// The domain can be given as one 64-bit word.
pub open spec fn fits_small(d: HybridDomainChirho) -> bool {
    match d {
        HybridDomainChirho::Small(_) => true,
        HybridDomainChirho::Large(p) => p.below_64(),
        HybridDomainChirho::Symbolic(s) => match s.constraint_chirho {
            SymbolicConstraintChirho::NoneChirho => true,
            SymbolicConstraintChirho::ExactChirho(v) => 0 <= v < 64,
            SymbolicConstraintChirho::RangeChirho { lo_chirho, hi_chirho } => lo_chirho >= 0 && hi_chirho < 64,
            SymbolicConstraintChirho::AndChirho(cs) => exists|j: int| 0 <= j < cs.len() && small_range(#[trigger] cs@[j]),
            _ => false,
        },
        HybridDomainChirho::Infinite => false,
    }
}

/// What `is_empty_chirho` reports.
pub open spec fn hybrid_is_empty(d: HybridDomainChirho) -> bool {
    match d {
        HybridDomainChirho::Small(b) => b.0 == 0,
        HybridDomainChirho::Large(p) => p.values() == Set::<u64>::empty(),
        HybridDomainChirho::Symbolic(s) => s.constraint_chirho is NoneChirho,
        HybridDomainChirho::Infinite => false,
    }
}

/// The same form with the same contents.
pub open spec fn same_hybrid(a: HybridDomainChirho, b: HybridDomainChirho) -> bool {
    match a {
        HybridDomainChirho::Small(x) => b matches HybridDomainChirho::Small(y) && x == y,
        HybridDomainChirho::Large(p) => b matches HybridDomainChirho::Large(q) && p.pages() == q.pages(),
        HybridDomainChirho::Symbolic(s) => b matches HybridDomainChirho::Symbolic(t) && same(s.constraint_chirho, t.constraint_chirho),
        HybridDomainChirho::Infinite => b is Infinite,
    }
}

/// Domains of the same form and contents hold the same values.
pub proof fn lemma_same_hybrid(a: HybridDomainChirho, b: HybridDomainChirho)
    requires
        same_hybrid(a, b),
    ensures
        forall|x: int| #[trigger] hybrid_has(a, x) == hybrid_has(b, x),
        hybrid_wf(a) == hybrid_wf(b),
        fits_small(a) == fits_small(b),
{
    if let HybridDomainChirho::Symbolic(s) = a {
        if let HybridDomainChirho::Symbolic(t) = b {
            lemma_same_sat(s.constraint_chirho, t.constraint_chirho);
            assert forall|x: int| #[trigger] hybrid_has(a, x) == hybrid_has(b, x) by {
                if i64::MIN <= x <= i64::MAX {
                    assert(sat(s.constraint_chirho, x as i64) == sat(t.constraint_chirho, x as i64));
                }
            }
            if s.constraint_chirho is AndChirho {
                let xs = s.constraint_chirho->AndChirho_0;
                let ys = t.constraint_chirho->AndChirho_0;
                if fits_small(a) {
                    let j = choose|j: int| 0 <= j < xs.len() && small_range(#[trigger] xs@[j]);
                    assert(same(xs@[j], ys@[j]));
                    assert(xs@[j] == ys@[j]);
                    assert(small_range(ys@[j]));
                }
                if fits_small(b) {
                    let j = choose|j: int| 0 <= j < ys.len() && small_range(#[trigger] ys@[j]);
                    assert(same(xs@[j], ys@[j]));
                    assert(xs@[j] == ys@[j]);
                    assert(small_range(xs@[j]));
                }
            }
        }
    } else if let HybridDomainChirho::Large(p) = a {
        if let HybridDomainChirho::Large(q) = b {
            assert forall|x: int| #[trigger] hybrid_has(a, x) == hybrid_has(b, x) by {
                if 0 <= x <= u64::MAX {
                    assert(p.has(x as u64) == q.has(x as u64));
                }
            }
            assert forall|v: u64| #[trigger] p.has(v) == q.has(v) by {}
            if fits_small(a) {
                assert forall|v: u64| #[trigger] q.has(v) implies v < 64 by {
                    assert(p.has(v));
                }
            }
            if fits_small(b) {
                assert forall|v: u64| #[trigger] p.has(v) implies v < 64 by {
                    assert(q.has(v));
                }
            }
        }
    }
}


/// What `intersect_chirho` needs of its arguments: well-formed constraints,
/// and for two symbolic domains a residue combination that fits in an `i64`.
pub open spec fn intersect_ok(a: HybridDomainChirho, b: HybridDomainChirho) -> bool {
    &&& hybrid_wf(a)
    &&& hybrid_wf(b)
    &&& match (a, b) {
        (HybridDomainChirho::Symbolic(s), HybridDomainChirho::Symbolic(t)) =>
            intersect_fits(s.constraint_chirho, t.constraint_chirho),
        _ => true,
    }
}

/// Two symbolic domains with different type tags.
pub open spec fn tags_clash(a: HybridDomainChirho, b: HybridDomainChirho) -> bool {
    match (a, b) {
        (HybridDomainChirho::Symbolic(s), HybridDomainChirho::Symbolic(t)) => clashing_tags(s.constraint_chirho, t.constraint_chirho),
        _ => false,
    }
}

/// One paged domain and one symbolic domain.
pub open spec fn large_with_symbolic(a: HybridDomainChirho, b: HybridDomainChirho) -> bool {
    (a is Large && b is Symbolic) || (a is Symbolic && b is Large)
}

/// A paged value `x` kept against a symbolic constraint: the constraint is
/// tested on `x` taken as an `i64`, which wraps above `i64::MAX`.
pub open spec fn paged_meets_symbolic(p: PagedDomainChirho, c: SymbolicConstraintChirho, x: int) -> bool {
    0 <= x <= u64::MAX && p.has(x as u64) && sat(c, (x as u64) as i64)
}

/// The values of `r`, for `r` the intersection of `a` and `b`.
pub open spec fn intersect_values(a: HybridDomainChirho, b: HybridDomainChirho, r: HybridDomainChirho) -> bool {
    &&& tags_clash(a, b) ==> forall|x: int| !#[trigger] hybrid_has(r, x)
    &&& !tags_clash(a, b) && !large_with_symbolic(a, b) ==> forall|x: int|
        #[trigger] hybrid_has(r, x) == (hybrid_has(a, x) && hybrid_has(b, x))
    &&& match (a, b) {
        (HybridDomainChirho::Large(p), HybridDomainChirho::Symbolic(s)) => forall|x: int|
            #[trigger] hybrid_has(r, x) == paged_meets_symbolic(p, s.constraint_chirho, x),
        (HybridDomainChirho::Symbolic(s), HybridDomainChirho::Large(p)) => forall|x: int|
            #[trigger] hybrid_has(r, x) == paged_meets_symbolic(p, s.constraint_chirho, x),
        _ => true,
    }
}

/// The form of the intersection: an unbounded side leaves the other side as
/// it is, a word on either side gives a word, and otherwise the result is a
/// word exactly when its values fit in one.
pub open spec fn intersect_form(a: HybridDomainChirho, b: HybridDomainChirho, r: HybridDomainChirho) -> bool {
    match (a, b) {
        (HybridDomainChirho::Infinite, HybridDomainChirho::Infinite) => r is Infinite,
        (HybridDomainChirho::Infinite, _) => same_hybrid(r, b),
        (_, HybridDomainChirho::Infinite) => same_hybrid(r, a),
        (HybridDomainChirho::Small(_), _) => r is Small,
        (_, HybridDomainChirho::Small(_)) => r is Small,
        (HybridDomainChirho::Symbolic(s), HybridDomainChirho::Symbolic(t)) => r is Small
            || (r matches HybridDomainChirho::Symbolic(u)
                && intersect_shape(s.constraint_chirho, t.constraint_chirho, u.constraint_chirho)
                && !fits_small(r)),
        _ => r is Small || (r is Large && !fits_small(r)),
    }
}

impl HybridDomainChirho {
    /// A second domain of the same form and contents.
    fn copy_chirho(&self) -> (r: Self)
        ensures
            same_hybrid(r, *self),
    {
        match self {
            HybridDomainChirho::Small(b) => HybridDomainChirho::Small(*b),
            HybridDomainChirho::Large(p) => HybridDomainChirho::Large(p.copy_chirho()),
            HybridDomainChirho::Symbolic(s) => HybridDomainChirho::Symbolic(
                SymbolicDomainChirho { constraint_chirho: copy_constraint_chirho(&s.constraint_chirho) },
            ),
            HybridDomainChirho::Infinite => HybridDomainChirho::Infinite,
        }
    }

    /// The domain as one word for the bit-parallel path, where it fits.
    pub fn try_to_small_chirho(&self) -> (r: Option<BitVec64Chirho>)
        requires
            hybrid_wf(*self),
        ensures
            r is Some == fits_small(*self),
            r matches Some(b) ==> forall|x: int| #[trigger] hybrid_has(*self, x) == (0 <= x < 64 && bit64(b.0, x)),
    {
        match self {
            HybridDomainChirho::Small(bits) => Some(*bits),
            HybridDomainChirho::Large(paged) => {
                let r = paged.to_bitvec64_chirho();
                proof {
                    if let Some(b) = r {
                        assert forall|x: int| #[trigger] hybrid_has(*self, x) == (0 <= x < 64 && bit64(b.0, x)) by {
                            if 0 <= x <= u64::MAX {
                                assert(paged.has(x as u64) == (x < 64 && bit64(b.0, x)));
                            }
                        }
                    }
                }
                r
            },
            HybridDomainChirho::Symbolic(sym) => {
                let r = sym.try_enumerate_chirho(64);
                proof {
                    if let Some(b) = r {
                        assert forall|x: int| #[trigger] hybrid_has(*self, x) == (0 <= x < 64 && bit64(b.0, x)) by {
                            if i64::MIN <= x <= i64::MAX {
                                assert(sat(sym.constraint_chirho, x as i64) == (0 <= x < 64 && bit64(b.0, x)));
                            }
                        }
                    }
                }
                r
            },
            HybridDomainChirho::Infinite => None,
        }
    }

    /// Intersection: words are ANDed, pages intersected, constraints combined
    /// symbolically, a finite side filtered by a constraint, and an unbounded
    /// side gives way to the other. A result whose values fit in one word is
    /// given as a word.
    pub fn intersect_chirho(&self, other_chirho: &Self) -> (r: Self)
        requires
            intersect_ok(*self, *other_chirho),
        ensures
            hybrid_wf(r),
            intersect_values(*self, *other_chirho, r),
            intersect_form(*self, *other_chirho, r),
    {
        match (self, other_chirho) {
            (HybridDomainChirho::Small(a), HybridDomainChirho::Small(b)) => {
                let result_chirho = a.and_chirho(*b);
                let out = if result_chirho.is_zero_chirho() {
                    BitVec64Chirho::ZERO_CHIRHO()
                } else {
                    result_chirho
                };
                proof {
                    assert forall|x: int| #[trigger] hybrid_has(HybridDomainChirho::Small(out), x)
                        == (hybrid_has(*self, x) && hybrid_has(*other_chirho, x)) by {
                        lemma_and_bits(a.0, b.0, x);
                    }
                }
                HybridDomainChirho::Small(out)
            },
            (HybridDomainChirho::Large(a), HybridDomainChirho::Large(b)) => {
                let r = downgrade_chirho(a.intersect_chirho(b));
                proof {
                    assert forall|x: int| #[trigger] hybrid_has(r, x) == (hybrid_has(*self, x) && hybrid_has(*other_chirho, x)) by {}
                }
                r
            },
            (HybridDomainChirho::Small(bits), HybridDomainChirho::Large(paged)) => {
                let r = meet_small_large_chirho(*bits, paged);
                proof {
                    assert forall|x: int| #[trigger] hybrid_has(r, x) == (hybrid_has(*self, x) && hybrid_has(*other_chirho, x)) by {}
                }
                r
            },
            (HybridDomainChirho::Large(paged), HybridDomainChirho::Small(bits)) => {
                let r = meet_small_large_chirho(*bits, paged);
                proof {
                    assert forall|x: int| #[trigger] hybrid_has(r, x) == (hybrid_has(*self, x) && hybrid_has(*other_chirho, x)) by {}
                }
                r
            },
            (HybridDomainChirho::Symbolic(a), HybridDomainChirho::Symbolic(b)) => {
                let result_chirho = a.intersect_chirho(b);
                match result_chirho.try_enumerate_chirho(64) {
                    Some(bits) => {
                        let r = HybridDomainChirho::Small(bits);
                        proof {
                            if tags_clash(*self, *other_chirho) {
                                lemma_zero_iff_no_bits(bits.0);
                            } else {
                                assert forall|x: int| #[trigger] hybrid_has(r, x)
                                    == (hybrid_has(*self, x) && hybrid_has(*other_chirho, x)) by {
                                    if i64::MIN <= x <= i64::MAX {
                                        assert(sat(result_chirho.constraint_chirho, x as i64)
                                            == (sat(a.constraint_chirho, x as i64) && sat(b.constraint_chirho, x as i64)));
                                        assert(sat(result_chirho.constraint_chirho, x as i64) == (0 <= x < 64 && bit64(bits.0, x)));
                                    }
                                }
                            }
                        }
                        r
                    },
                    None => {
                        let r = HybridDomainChirho::Symbolic(result_chirho);
                        proof {
                            assert(!tags_clash(*self, *other_chirho));
                            assert forall|x: int| #[trigger] hybrid_has(r, x)
                                == (hybrid_has(*self, x) && hybrid_has(*other_chirho, x)) by {
                                if i64::MIN <= x <= i64::MAX {
                                    assert(sat(result_chirho.constraint_chirho, x as i64)
                                        == (sat(a.constraint_chirho, x as i64) && sat(b.constraint_chirho, x as i64)));
                                }
                            }
                        }
                        r
                    },
                }
            },
            (HybridDomainChirho::Small(bits), HybridDomainChirho::Symbolic(sym)) => {
                let r = meet_small_symbolic_chirho(*bits, sym);
                proof {
                    assert forall|x: int| #[trigger] hybrid_has(r, x) == (hybrid_has(*self, x) && hybrid_has(*other_chirho, x)) by {}
                }
                r
            },
            (HybridDomainChirho::Symbolic(sym), HybridDomainChirho::Small(bits)) => {
                let r = meet_small_symbolic_chirho(*bits, sym);
                proof {
                    assert forall|x: int| #[trigger] hybrid_has(r, x) == (hybrid_has(*self, x) && hybrid_has(*other_chirho, x)) by {}
                }
                r
            },
            (HybridDomainChirho::Large(paged), HybridDomainChirho::Symbolic(sym)) => meet_large_symbolic_chirho(paged, sym),
            (HybridDomainChirho::Symbolic(sym), HybridDomainChirho::Large(paged)) => meet_large_symbolic_chirho(paged, sym),
            (HybridDomainChirho::Infinite, other) => {
                if other.is_finite_chirho() {
                    let r = other.copy_chirho();
                    proof {
                        lemma_same_hybrid(r, *other);
                    }
                    r
                } else {
                    HybridDomainChirho::Infinite
                }
            },
            (other, HybridDomainChirho::Infinite) => {
                if other.is_finite_chirho() {
                    let r = other.copy_chirho();
                    proof {
                        lemma_same_hybrid(r, *other);
                    }
                    r
                } else {
                    HybridDomainChirho::Infinite
                }
            },
        }
    }

    /// Not the unbounded domain.
    pub fn is_finite_chirho(&self) -> (r: bool)
        ensures
            r == !(*self is Infinite),
    {
        !matches!(self, HybridDomainChirho::Infinite)
    }

    /// Known to hold no value: an empty word, no page, or the empty constraint.
    pub fn is_empty_chirho(&self) -> (r: bool)
        ensures
            r == hybrid_is_empty(*self),
            r ==> forall|x: int| !#[trigger] hybrid_has(*self, x),
    {
        match self {
            HybridDomainChirho::Small(bits) => {
                let r = bits.is_zero_chirho();
                proof {
                    lemma_zero_iff_no_bits(bits.0);
                }
                r
            },
            HybridDomainChirho::Large(paged) => {
                let r = paged.is_empty_chirho();
                proof {
                    if r {
                        assert forall|x: int| !#[trigger] hybrid_has(*self, x) by {
                            if 0 <= x <= u64::MAX {
                                assert(!paged.values().contains(x as u64));
                            }
                        }
                    }
                }
                r
            },
            HybridDomainChirho::Symbolic(sym) => sym.is_empty_chirho(),
            HybridDomainChirho::Infinite => false,
        }
    }
}

/// The word's values that the pages hold.
fn meet_small_large_chirho(bits: BitVec64Chirho, paged: &PagedDomainChirho) -> (r: HybridDomainChirho)
    ensures
        r is Small,
        forall|x: int| #[trigger] hybrid_has(r, x) == (0 <= x < 64 && bit64(bits.0, x) && paged.has(x as u64)),
{
    if let Some(paged_bits) = paged.to_bitvec64_chirho() {
        let out = bits.and_chirho(paged_bits);
        proof {
            assert forall|x: int| #[trigger] hybrid_has(HybridDomainChirho::Small(out), x)
                == (0 <= x < 64 && bit64(bits.0, x) && paged.has(x as u64)) by {
                lemma_and_bits(bits.0, paged_bits.0, x);
                if 0 <= x < 64 {
                    assert(paged.has(x as u64) == (x < 64 && bit64(paged_bits.0, x)));
                }
            }
        }
        HybridDomainChirho::Small(out)
    } else {
        let mut result = PagedDomainChirho::empty_chirho();
        let mut v: u64 = 0;
        while v < 64
            invariant
                v <= 64,
                forall|w: u64| #[trigger] result.has(w) == (w < v && bit64(bits.0, w as int) && paged.has(w)),
            decreases 64 - v,
        {
            if bits.test_bit_chirho(v as u32) && paged.contains_chirho(v) {
                result.insert_chirho(v);
            }
            v = v + 1;
        }
        match result.to_bitvec64_chirho() {
            Some(b) => {
                proof {
                    assert forall|x: int| #[trigger] hybrid_has(HybridDomainChirho::Small(b), x)
                        == (0 <= x < 64 && bit64(bits.0, x) && paged.has(x as u64)) by {
                        if 0 <= x < 64 {
                            assert(result.has(x as u64) == (x < 64 && bit64(b.0, x)));
                        }
                    }
                }
                HybridDomainChirho::Small(b)
            },
            None => {
                proof {
                    assert forall|w: u64| #[trigger] result.has(w) implies w < 64 by {}
                }
                HybridDomainChirho::Large(result)
            },
        }
    }
}

/// The word's values that meet the constraint.
fn meet_small_symbolic_chirho(bits: BitVec64Chirho, sym: &SymbolicDomainChirho) -> (r: HybridDomainChirho)
    requires
        wf(sym.constraint_chirho),
    ensures
        r is Small,
        forall|x: int| #[trigger] hybrid_has(r, x) == (0 <= x < 64 && bit64(bits.0, x) && sat(sym.constraint_chirho, x as i64)),
{
    let mut out: u64 = 0;
    let mut v: u64 = 0;
    proof {
        lemma_zero_iff_no_bits(0);
    }
    while v < 64
        invariant
            v <= 64,
            wf(sym.constraint_chirho),
            forall|i: int| #[trigger] bit64(out, i) == (0 <= i < v && bit64(bits.0, i) && sat(sym.constraint_chirho, i as i64)),
        decreases 64 - v,
    {
        let ghost prev = out;
        proof {
            lemma_wf_checkable(sym.constraint_chirho, v as i64);
        }
        if bits.test_bit_chirho(v as u32) && sym.contains_chirho(v as i64) {
            out = out | (1u64 << v);
            proof {
                assert forall|i: int| #[trigger] bit64(out, i)
                    == (0 <= i < v + 1 && bit64(bits.0, i) && sat(sym.constraint_chirho, i as i64)) by {
                    lemma_or_bits(prev, 1u64 << v, i);
                    lemma_shl_bits(v, i);
                }
            }
        } else {
            proof {
                assert forall|i: int| #[trigger] bit64(out, i)
                    == (0 <= i < v + 1 && bit64(bits.0, i) && sat(sym.constraint_chirho, i as i64)) by {
                    if i == v {
                        assert(!bit64(prev, i));
                    }
                }
            }
        }
        v = v + 1;
    }
    HybridDomainChirho::Small(BitVec64Chirho(out))
}

/// A paged result as a word where its values fit in one, as pages otherwise.
fn downgrade_chirho(result: PagedDomainChirho) -> (r: HybridDomainChirho)
    ensures
        r is Small || (r is Large && !fits_small(r)),
        forall|x: int| #[trigger] hybrid_has(r, x) == (0 <= x <= u64::MAX && result.has(x as u64)),
{
    match result.to_bitvec64_chirho() {
        Some(b) => {
            proof {
                assert forall|x: int| #[trigger] hybrid_has(HybridDomainChirho::Small(b), x)
                    == (0 <= x <= u64::MAX && result.has(x as u64)) by {
                    if 0 <= x <= u64::MAX {
                        assert(result.has(x as u64) == (x < 64 && bit64(b.0, x)));
                    }
                }
            }
            HybridDomainChirho::Small(b)
        },
        None => {
            proof {
                assert(!fits_small(HybridDomainChirho::Large(result)));
            }
            HybridDomainChirho::Large(result)
        },
    }
}

/// The paged values that meet the constraint (tested as `i64`).
fn meet_large_symbolic_chirho(paged: &PagedDomainChirho, sym: &SymbolicDomainChirho) -> (r: HybridDomainChirho)
    requires
        wf(sym.constraint_chirho),
    ensures
        r is Small || (r is Large && !fits_small(r)),
        forall|x: int| #[trigger] hybrid_has(r, x) == paged_meets_symbolic(*paged, sym.constraint_chirho, x),
{
    let vals = paged.iter_chirho();
    let mut result = PagedDomainChirho::empty_chirho();
    let mut i: usize = 0;
    while i < vals.len()
        invariant
            i <= vals.len(),
            wf(sym.constraint_chirho),
            forall|w: u64| #[trigger] result.has(w) == (vals@.subrange(0, i as int).contains(w) && sat(sym.constraint_chirho, w as i64)),
        decreases vals.len() - i,
    {
        let val = vals[i];
        proof {
            lemma_wf_checkable(sym.constraint_chirho, val as i64);
        }
        let keep = sym.contains_chirho(val as i64);
        if keep {
            result.insert_chirho(val);
        }
        proof {
            assert(vals@.subrange(0, i + 1) == vals@.subrange(0, i as int).push(val));
        }
        i = i + 1;
    }
    proof {
        assert(vals@.subrange(0, vals.len() as int) == vals@);
    }
    let r = downgrade_chirho(result);
    proof {
        assert forall|x: int| #[trigger] hybrid_has(r, x) == paged_meets_symbolic(*paged, sym.constraint_chirho, x) by {
            if 0 <= x <= u64::MAX {
                assert(result.has(x as u64) == (paged.has(x as u64) && sat(sym.constraint_chirho, (x as u64) as i64)));
            }
        }
    }
    r
}

/// How far a variable is bound.
#[derive(Debug)]
pub enum ModeChirho {
    /// Bound to the term with this id.
    Ground(u32),
    /// One of a finite set of term ids.
    Finite(BitVec64Chirho),
    /// Under a symbolic constraint.
    Constrained(SymbolicDomainChirho),
    /// Not bound at all.
    Free,
}

/// Every domain of the map is well formed.
pub open spec fn domains_ok(m: Map<u32, HybridDomainChirho>) -> bool {
    forall|k: u32| #[trigger] m.contains_key(k) ==> hybrid_wf(m[k])
}

/// `i` is the last position before `lim` at which `hw` holds `k`.
pub open spec fn last_at(hw: Seq<u32>, lim: int, k: u32, i: int) -> bool {
    0 <= i < lim && hw[i] == k && forall|j: int| i < j < lim ==> hw[j] != k
}

/// How many slots `apply_hw_results_chirho` writes: the eligible variables
/// that have a slot.
pub open spec fn apply_limit(len: usize, n: usize) -> int {
    if len < n { len as int } else { n as int }
}

/// Slot `i` of an extracted state holds word `w`: the word of the `i`-th
/// eligible variable where it has one that fits, all ones otherwise.
pub open spec fn slot_word(m: Map<u32, HybridDomainChirho>, hw: Seq<u32>, i: int, w: u64) -> bool {
    if 0 <= i < hw.len() && m.contains_key(hw[i]) && fits_small(m[hw[i]]) {
        forall|x: int| 0 <= x < 64 ==> #[trigger] bit64(w, x) == hybrid_has(m[hw[i]], x)
    } else {
        w == u64::MAX
    }
}

/// A search state whose variables each have a hybrid domain.
#[derive(Debug)]
pub struct HybridStateChirho {
    /// Domain of each variable.
    pub domains_chirho: HashMap<u32, HybridDomainChirho>,
    /// The variables handed to the bit-parallel path, in slot order.
    pub hw_eligible_chirho: Vec<u32>,
}

impl HybridStateChirho {
    /// No variable.
    pub fn new_chirho() -> (r: Self)
        ensures
            r.domains_chirho@ == Map::<u32, HybridDomainChirho>::empty(),
            r.hw_eligible_chirho@ == Seq::<u32>::empty(),
    {
        Self { domains_chirho: HashMap::new(), hw_eligible_chirho: Vec::new() }
    }

    /// Collect the variables whose domains fit in one word.
    pub fn analyze_hw_eligible_chirho(&mut self)
        requires
            domains_ok(old(self).domains_chirho@),
        ensures
            final(self).domains_chirho@ == old(self).domains_chirho@,
            final(self).hw_eligible_chirho@.no_duplicates(),
            forall|v: u32| #[trigger] final(self).hw_eligible_chirho@.contains(v)
                == (old(self).domains_chirho@.contains_key(v) && fits_small(old(self).domains_chirho@[v])),
    {
        let (hw_vars_chirho, _) = partition_by_domain_chirho(&self.domains_chirho);
        self.hw_eligible_chirho = hw_vars_chirho;
    }
}

impl HybridStateChirho {
    /// The eligible variables' words laid out in a bit-parallel state, one
    /// slot per variable (`None` when there are more of them than slots).
    pub fn extract_hw_state_chirho<const N: usize>(&self) -> (r: Option<SearchStateHwChirho<N>>)
        requires
            domains_ok(self.domains_chirho@),
        ensures
            r is None == (self.hw_eligible_chirho.len() > N),
            r matches Some(st) ==> st.valid_chirho && forall|i: int| 0 <= i < N
                ==> slot_word(self.domains_chirho@, self.hw_eligible_chirho@, i, #[trigger] st.domains_chirho[i].0),
    {
        if self.hw_eligible_chirho.len() > N {
            return None;
        }
        let mut state_chirho = SearchStateHwChirho::<N>::new_chirho();
        let mut idx: usize = 0;
        while idx < self.hw_eligible_chirho.len()
            invariant
                idx <= self.hw_eligible_chirho.len() <= N,
                domains_ok(self.domains_chirho@),
                state_chirho.valid_chirho,
                forall|i: int| 0 <= i < N ==> if i < idx {
                    slot_word(self.domains_chirho@, self.hw_eligible_chirho@, i, #[trigger] state_chirho.domains_chirho[i].0)
                } else {
                    state_chirho.domains_chirho[i].0 == u64::MAX
                },
            decreases self.hw_eligible_chirho.len() - idx,
        {
            let var_chirho = self.hw_eligible_chirho[idx];
            if let Some(domain_chirho) = self.domains_chirho.get(&var_chirho) {
                if let Some(bits_chirho) = domain_chirho.try_to_small_chirho() {
                    state_chirho.domains_chirho[idx] = bits_chirho;
                }
            }
            proof {
                assert(slot_word(self.domains_chirho@, self.hw_eligible_chirho@, idx as int, state_chirho.domains_chirho[idx as int].0));
            }
            idx = idx + 1;
        }
        Some(state_chirho)
    }

    /// Write the bit-parallel results back: each eligible variable with a
    /// slot gets its slot's word (a variable listed twice keeps its last slot).
    pub fn apply_hw_results_chirho<const N: usize>(&mut self, hw_state_chirho: &SearchStateHwChirho<N>)
        ensures
            final(self).hw_eligible_chirho@ == old(self).hw_eligible_chirho@,
            forall|k: u32, i: int| #[trigger] last_at(old(self).hw_eligible_chirho@, apply_limit(old(self).hw_eligible_chirho.len(), N), k, i)
                ==> final(self).domains_chirho@.contains_key(k)
                && final(self).domains_chirho@[k] == HybridDomainChirho::Small(hw_state_chirho.domains_chirho[i]),
            forall|k: u32| !old(self).hw_eligible_chirho@.subrange(0, apply_limit(old(self).hw_eligible_chirho.len(), N)).contains(k)
                ==> (#[trigger] final(self).domains_chirho@.contains_key(k) == old(self).domains_chirho@.contains_key(k))
                && (old(self).domains_chirho@.contains_key(k) ==> final(self).domains_chirho@[k] == old(self).domains_chirho@[k]),
    {
        let ghost hw = self.hw_eligible_chirho@;
        let ghost lim = apply_limit(self.hw_eligible_chirho.len(), N);
        let mut idx: usize = 0;
        while idx < self.hw_eligible_chirho.len() && idx < N
            invariant
                self.hw_eligible_chirho@ == hw,
                hw == old(self).hw_eligible_chirho@,
                lim == apply_limit(self.hw_eligible_chirho.len(), N),
                idx <= lim,
                forall|k: u32, i: int| #[trigger] last_at(hw, idx as int, k, i) ==> self.domains_chirho@.contains_key(k)
                    && self.domains_chirho@[k] == HybridDomainChirho::Small(hw_state_chirho.domains_chirho[i]),
                forall|k: u32| !hw.subrange(0, idx as int).contains(k)
                    ==> (#[trigger] self.domains_chirho@.contains_key(k) == old(self).domains_chirho@.contains_key(k))
                    && (old(self).domains_chirho@.contains_key(k) ==> self.domains_chirho@[k] == old(self).domains_chirho@[k]),
            decreases self.hw_eligible_chirho.len() - idx,
        {
            let var_chirho = self.hw_eligible_chirho[idx];
            let bits_chirho = hw_state_chirho.domains_chirho[idx];
            let ghost before = self.domains_chirho@;
            self.domains_chirho.insert(var_chirho, HybridDomainChirho::Small(bits_chirho));
            proof {
                assert forall|k: u32, i: int| #[trigger] last_at(hw, idx + 1, k, i) implies self.domains_chirho@.contains_key(k)
                    && self.domains_chirho@[k] == HybridDomainChirho::Small(hw_state_chirho.domains_chirho[i]) by {
                    assert(hw[idx as int] == var_chirho);
                    if k != var_chirho {
                        assert(last_at(hw, idx as int, k, i));
                    } else if i < idx {
                        assert(hw[idx as int] == k);
                    }
                }
                assert forall|k: u32| !hw.subrange(0, idx + 1).contains(k) implies
                    (#[trigger] self.domains_chirho@.contains_key(k) == old(self).domains_chirho@.contains_key(k))
                    && (old(self).domains_chirho@.contains_key(k) ==> self.domains_chirho@[k] == old(self).domains_chirho@[k]) by {
                    assert(hw.subrange(0, idx + 1)[idx as int] == var_chirho);
                    assert forall|j: int| 0 <= j < idx implies hw.subrange(0, idx as int)[j] == hw.subrange(0, idx + 1)[j] by {}
                    if hw.subrange(0, idx as int).contains(k) {
                        let j = choose|j: int| 0 <= j < idx && hw.subrange(0, idx as int)[j] == k;
                        assert(hw.subrange(0, idx + 1)[j] == k);
                    }
                }
            }
            idx = idx + 1;
        }
        proof {
            assert(idx == lim);
        }
    }

    /// Narrow a variable's domain: intersect with the one it has, or set it.
    pub fn constrain_chirho(&mut self, var_chirho: u32, new_domain_chirho: HybridDomainChirho)
        requires
            old(self).domains_chirho@.contains_key(var_chirho) ==> intersect_ok(old(self).domains_chirho@[var_chirho], new_domain_chirho),
            !old(self).domains_chirho@.contains_key(var_chirho) ==> hybrid_wf(new_domain_chirho),
        ensures
            final(self).hw_eligible_chirho@ == old(self).hw_eligible_chirho@,
            final(self).domains_chirho@.dom() == old(self).domains_chirho@.dom().insert(var_chirho),
            forall|k: u32| k != var_chirho && #[trigger] old(self).domains_chirho@.contains_key(k)
                ==> final(self).domains_chirho@[k] == old(self).domains_chirho@[k],
            old(self).domains_chirho@.contains_key(var_chirho) ==> {
                let a = old(self).domains_chirho@[var_chirho];
                let r = final(self).domains_chirho@[var_chirho];
                hybrid_wf(r) && intersect_values(a, new_domain_chirho, r) && intersect_form(a, new_domain_chirho, r)
            },
            !old(self).domains_chirho@.contains_key(var_chirho) ==> final(self).domains_chirho@[var_chirho] == new_domain_chirho,
    {
        let merged = match self.domains_chirho.get(&var_chirho) {
            Some(existing) => existing.intersect_chirho(&new_domain_chirho),
            None => new_domain_chirho,
        };
        self.domains_chirho.insert(var_chirho, merged);
    }

    /// No domain is known to be empty.
    pub fn is_valid_chirho(&self) -> (r: bool)
        ensures
            r == forall|k: u32| #[trigger] self.domains_chirho@.contains_key(k) ==> !hybrid_is_empty(self.domains_chirho@[k]),
    {
        let ghost s = spec_hash_map_iter(&self.domains_chirho).remaining();
        let ghost mut seen: int = 0;
        for pair in it: self.domains_chirho.iter()
            invariant
                it.seq() == s,
                seen == it.index(),
                forall|i: int| 0 <= i < s.len() ==> self.domains_chirho@.contains_key(*(#[trigger] s[i]).0)
                    && self.domains_chirho@[*s[i].0] == *s[i].1,
                forall|i: int| 0 <= i < seen ==> !hybrid_is_empty(*(#[trigger] s[i]).1),
        {
            let (_, d) = pair;
            proof {
                assert(pair == s[seen]);
            }
            if d.is_empty_chirho() {
                return false;
            }
            proof {
                seen = seen + 1;
            }
        }
        proof {
            assert forall|k: u32| #[trigger] self.domains_chirho@.contains_key(k) implies !hybrid_is_empty(self.domains_chirho@[k]) by {
                assert(s.contains((&k, &self.domains_chirho@[k])));
                let i = choose|i: int| 0 <= i < s.len() && s[i] == (&k, &self.domains_chirho@[k]);
                assert(!hybrid_is_empty(*s[i].1));
            }
        }
        true
    }
}

/// Split the variables into those whose domains fit in one word and the rest.
pub fn partition_by_domain_chirho(domains_chirho: &HashMap<u32, HybridDomainChirho>) -> (r: (Vec<u32>, Vec<u32>))
    requires
        domains_ok(domains_chirho@),
    ensures
        r.0@.no_duplicates(),
        r.1@.no_duplicates(),
        forall|v: u32| #[trigger] r.0@.contains(v) == (domains_chirho@.contains_key(v) && fits_small(domains_chirho@[v])),
        forall|v: u32| #[trigger] r.1@.contains(v) == (domains_chirho@.contains_key(v) && !fits_small(domains_chirho@[v])),
{
    let mut hw_vars_chirho: Vec<u32> = Vec::new();
    let mut ref_vars_chirho: Vec<u32> = Vec::new();
    let ghost s = spec_hash_map_iter(domains_chirho).remaining();
    let ghost mut seen: int = 0;
    for pair in it: domains_chirho.iter()
        invariant
            it.seq() == s,
            seen == it.index(),
            s.no_duplicates(),
            domains_ok(domains_chirho@),
            forall|i: int| 0 <= i < s.len() ==> domains_chirho@.contains_key(*(#[trigger] s[i]).0)
                && domains_chirho@[*s[i].0] == *s[i].1,
            hw_vars_chirho@.no_duplicates(),
            ref_vars_chirho@.no_duplicates(),
            forall|v: u32| #[trigger] hw_vars_chirho@.contains(v)
                == (exists|i: int| 0 <= i < seen && *s[i].0 == v && fits_small(*s[i].1)),
            forall|v: u32| #[trigger] ref_vars_chirho@.contains(v)
                == (exists|i: int| 0 <= i < seen && *s[i].0 == v && !fits_small(*s[i].1)),
    {
        let (k, d) = pair;
        proof {
            assert(pair == s[seen]);
            assert forall|i: int| 0 <= i < seen implies *s[i].0 != *k by {
                if *s[i].0 == *k {
                    assert(s[i] == s[seen]);
                }
            }
        }
        if d.try_to_small_chirho().is_some() {
            proof {
                assert(!hw_vars_chirho@.contains(*k));
            }
            hw_vars_chirho.push(*k);
        } else {
            proof {
                assert(!ref_vars_chirho@.contains(*k));
            }
            ref_vars_chirho.push(*k);
        }
        proof {
            assert forall|v: u32| #[trigger] hw_vars_chirho@.contains(v)
                == (exists|i: int| 0 <= i < seen + 1 && *s[i].0 == v && fits_small(*s[i].1)) by {
                if exists|i: int| 0 <= i < seen + 1 && *s[i].0 == v && fits_small(*s[i].1) {
                    let i = choose|i: int| 0 <= i < seen + 1 && *s[i].0 == v && fits_small(*s[i].1);
                    if i < seen {
                        assert(exists|i: int| 0 <= i < seen && *s[i].0 == v && fits_small(*s[i].1));
                    }
                }
            }
            assert forall|v: u32| #[trigger] ref_vars_chirho@.contains(v)
                == (exists|i: int| 0 <= i < seen + 1 && *s[i].0 == v && !fits_small(*s[i].1)) by {
                if exists|i: int| 0 <= i < seen + 1 && *s[i].0 == v && !fits_small(*s[i].1) {
                    let i = choose|i: int| 0 <= i < seen + 1 && *s[i].0 == v && !fits_small(*s[i].1);
                    if i < seen {
                        assert(exists|i: int| 0 <= i < seen && *s[i].0 == v && !fits_small(*s[i].1));
                    }
                }
            }
            seen = seen + 1;
        }
    }
    proof {
        assert forall|v: u32| domains_chirho@.contains_key(v) implies exists|i: int| 0 <= i < s.len() && *(#[trigger] s[i]).0 == v by {
            assert(s.contains((&v, &domains_chirho@[v])));
            let i = choose|i: int| 0 <= i < s.len() && s[i] == (&v, &domains_chirho@[v]);
            assert(*s[i].0 == v);
        }
    }
    (hw_vars_chirho, ref_vars_chirho)
}

} // verus!
