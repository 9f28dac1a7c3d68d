//! Solver backends: the operations a backend offers (word operations,
//! constraint propagation over one 64-value domain per variable, and search),
//! and the CPU backend that carries them out.

use vstd::prelude::*;
use crate::bits::{bit64, popcount64, lowest64, lemma_and_bits, lemma_or_bits, lemma_not_bits, lemma_shl_bits,
    lemma_mask_test, lemma_zero_iff_no_bits, lemma_popcount64_mono, lemma_single_bit, lemma_bits_ext};
use crate::hardware::BitVec64Chirho;
use vstd::std_specs::bits::u64_trailing_zeros;

verus! {

/// What a backend reports about itself.
#[derive(Debug, Clone)]
pub struct BackendInfoChirho {
    /// Backend name: "cpu" or "fpga".
    pub name_chirho: &'static str,
    /// Version string.
    pub version_chirho: String,
    /// Estimated throughput (queries per second).
    pub throughput_estimate_chirho: u64,
    /// Whether batch operations are hardware-accelerated.
    pub batch_accelerated_chirho: bool,
}

/// A constraint between variables (values are bit positions `0..64`).
#[derive(Debug, Clone)]
pub enum ConstraintChirho {
    /// The two variables take equal values.
    EqualChirho { var_a_chirho: usize, var_b_chirho: usize },
    /// The two variables take different values.
    NotEqualChirho { var_a_chirho: usize, var_b_chirho: usize },
    /// Allowed pairs: bit `j` of word `i` allows `(i, j)`.
    BinaryChirho { var_a_chirho: usize, var_b_chirho: usize, allowed_pairs_chirho: Vec<u64> },
    /// The variable takes this value.
    FixedChirho { var_chirho: usize, value_chirho: u64 },
}

/// An assignment of a value to every variable.
#[derive(Debug, Clone, PartialEq)]
pub struct SolutionChirho {
    /// Value of each variable.
    pub assignments_chirho: Vec<u64>,
}

/// One 64-value domain per variable.
pub type DomainVecChirho = Vec<u64>;

/// The constraint names variables below `n`, and a fixed value is below 64.
pub open spec fn cons_ok(c: ConstraintChirho, n: int) -> bool {
    match c {
        ConstraintChirho::EqualChirho { var_a_chirho, var_b_chirho } => var_a_chirho < n && var_b_chirho < n,
        ConstraintChirho::NotEqualChirho { var_a_chirho, var_b_chirho } => var_a_chirho < n && var_b_chirho < n,
        ConstraintChirho::BinaryChirho { var_a_chirho, var_b_chirho, .. } => var_a_chirho < n && var_b_chirho < n,
        ConstraintChirho::FixedChirho { var_chirho, value_chirho } => var_chirho < n && value_chirho < 64,
    }
}

/// Every constraint is well formed for `n` variables.
pub open spec fn constraints_ok(cs: Seq<ConstraintChirho>, n: int) -> bool {
    forall|k: int| 0 <= k < cs.len() ==> cons_ok(#[trigger] cs[k], n)
}

/// Every value of `x` lies in the matching domain.
pub open spec fn within(ds: Seq<u64>, x: Seq<u64>) -> bool {
    x.len() == ds.len() && forall|i: int| 0 <= i < x.len() ==> #[trigger] bit64(ds[i], x[i] as int)
}

/// The assignment meets the constraint.
pub open spec fn satisfies(c: ConstraintChirho, x: Seq<u64>) -> bool {
    match c {
        ConstraintChirho::EqualChirho { var_a_chirho, var_b_chirho } => x[var_a_chirho as int] == x[var_b_chirho as int],
        ConstraintChirho::NotEqualChirho { var_a_chirho, var_b_chirho } => x[var_a_chirho as int] != x[var_b_chirho as int],
        ConstraintChirho::BinaryChirho { var_a_chirho, var_b_chirho, allowed_pairs_chirho } =>
            x[var_a_chirho as int] < allowed_pairs_chirho.len()
            && bit64(allowed_pairs_chirho@[x[var_a_chirho as int] as int], x[var_b_chirho as int] as int),
        ConstraintChirho::FixedChirho { var_chirho, value_chirho } => x[var_chirho as int] == value_chirho,
    }
}

/// `x` is a solution: within the domains and meeting every constraint.
pub open spec fn is_solution(ds: Seq<u64>, cs: Seq<ConstraintChirho>, x: Seq<u64>) -> bool {
    within(ds, x) && forall|k: int| 0 <= k < cs.len() ==> satisfies(#[trigger] cs[k], x)
}

/// Each domain of `d2` is a subset of the matching domain of `d1`.
pub open spec fn narrower(d2: Seq<u64>, d1: Seq<u64>) -> bool {
    d2.len() == d1.len() && forall|i: int, j: int| 0 <= i < d1.len() && #[trigger] bit64(d2[i], j) ==> bit64(d1[i], j)
}

/// Value `i` of the first variable has a partner in the second's domain.
pub open spec fn supports_a(da: u64, db: u64, allowed: Seq<u64>, i: int) -> bool {
    bit64(da, i) && i < allowed.len() && allowed[i] & db != 0
}

/// Value `j` of the second variable is allowed with some value of the first.
pub open spec fn supports_b(da: u64, db: u64, allowed: Seq<u64>, j: int) -> bool {
    bit64(db, j) && exists|i: int| #[trigger] bit64(da, i) && i < allowed.len() && bit64(allowed[i], j)
}

/// Applying the constraint to the domains changes nothing (for a binary
/// constraint on one variable: every value is allowed by some value of the
/// same domain).
pub open spec fn at_fixpoint(c: ConstraintChirho, ds: Seq<u64>) -> bool {
    match c {
        ConstraintChirho::EqualChirho { var_a_chirho, var_b_chirho } => ds[var_a_chirho as int] == ds[var_b_chirho as int],
        ConstraintChirho::NotEqualChirho { var_a_chirho, var_b_chirho } => {
            let da = ds[var_a_chirho as int];
            let db = ds[var_b_chirho as int];
            (popcount64(da) == 1 ==> db & !da == db) && (popcount64(db) == 1 ==> da & !db == da)
        },
        ConstraintChirho::BinaryChirho { var_a_chirho, var_b_chirho, allowed_pairs_chirho } => {
            let da = ds[var_a_chirho as int];
            let db = ds[var_b_chirho as int];
            if var_a_chirho == var_b_chirho {
                forall|j: int| #[trigger] bit64(db, j) ==> supports_b(da, db, allowed_pairs_chirho@, j)
            } else {
                (forall|i: int| #[trigger] bit64(da, i) ==> supports_a(da, db, allowed_pairs_chirho@, i))
                && (forall|j: int| #[trigger] bit64(db, j) ==> supports_b(da, db, allowed_pairs_chirho@, j))
            }
        },
        ConstraintChirho::FixedChirho { var_chirho, value_chirho } =>
            ds[var_chirho as int] & (1u64 << value_chirho) == ds[var_chirho as int],
    }
}

/// Sum of the domain sizes.
pub open spec fn pop_total(ds: Seq<u64>) -> nat
    decreases ds.len(),
{
    if ds.len() == 0 {
        0
    } else {
        pop_total(ds.drop_last()) + popcount64(ds.last())
    }
}

/// Narrowing never grows the total size, and a real narrowing shrinks it.
pub proof fn lemma_pop_total_narrower(d2: Seq<u64>, d1: Seq<u64>)
    requires
        narrower(d2, d1),
    ensures
        pop_total(d2) <= pop_total(d1),
        d2 != d1 ==> pop_total(d2) < pop_total(d1),
    decreases d1.len(),
{
    if d1.len() == 0 {
        assert(d2 =~= d1);
    } else {
        let n = d1.len() - 1;
        assert(narrower(d2.drop_last(), d1.drop_last())) by {
            assert forall|i: int, j: int| 0 <= i < d1.drop_last().len() && #[trigger] bit64(d2.drop_last()[i], j)
                implies bit64(d1.drop_last()[i], j) by {
                assert(bit64(d2[i], j));
            }
        }
        lemma_pop_total_narrower(d2.drop_last(), d1.drop_last());
        assert forall|j: int| #[trigger] bit64(d2.last(), j) implies bit64(d1.last(), j) by {
            assert(bit64(d2[n], j));
        }
        lemma_popcount64_mono(d2.last(), d1.last());
        if d2 != d1 {
            if d2.last() == d1.last() && d2.drop_last() == d1.drop_last() {
                assert(d2 =~= d2.drop_last().push(d2.last()));
                assert(d1 =~= d1.drop_last().push(d1.last()));
            }
        }
    }
}

/// A disequality keeps both of its variables' domains non-empty in `ds`
/// (every other constraint asks nothing).
pub open spec fn keeps_nonempty(c: ConstraintChirho, ds: Seq<u64>) -> bool {
    c matches ConstraintChirho::NotEqualChirho { var_a_chirho, var_b_chirho } ==> ds[var_a_chirho as int] != 0
        && ds[var_b_chirho as int] != 0
}

/// Domains that every constraint leaves unchanged, with the variables of every
/// disequality non-empty.
pub open spec fn stable(cs: Seq<ConstraintChirho>, ds: Seq<u64>) -> bool {
    forall|k: int| 0 <= k < cs.len() ==> at_fixpoint(#[trigger] cs[k], ds) && keeps_nonempty(cs[k], ds)
}

/// `r` holds every stable narrowing of `ds`: no such narrowing is cut further.
pub open spec fn holds_stable(ds: Seq<u64>, cs: Seq<ConstraintChirho>, r: Seq<u64>) -> bool {
    forall|r2: Seq<u64>| narrower(r2, ds) && #[trigger] stable(cs, r2) ==> narrower(r2, r)
}

/// Removing a singleton `da` from `db` keeps every domain `rb` below `db` that
/// a non-empty `ra` below `da` does not meet, when `ra` is itself a singleton.
proof fn lemma_ne_keeps(da: u64, db: u64, ra: u64, rb: u64)
    requires
        popcount64(da) == 1,
        ra != 0,
        forall|j: int| #[trigger] bit64(ra, j) ==> bit64(da, j),
        forall|j: int| #[trigger] bit64(rb, j) ==> bit64(db, j),
        popcount64(ra) == 1 ==> rb & !ra == rb,
    ensures
        forall|j: int| #[trigger] bit64(rb, j) ==> bit64(db & !da, j),
{
    lemma_single_bit(da);
    let t = u64_trailing_zeros(da) as int;
    lemma_zero_iff_no_bits(ra);
    let j0 = choose|j: int| bit64(ra, j);
    assert(j0 == t);
    assert forall|j: int| #[trigger] bit64(ra, j) == bit64(da, j) by {
        if bit64(da, j) {
            assert(j == t);
        }
    }
    lemma_bits_ext(ra, da);
    assert forall|j: int| #[trigger] bit64(rb, j) implies bit64(db & !da, j) by {
        lemma_and_bits(rb, !ra, j);
        lemma_not_bits(ra, j);
        lemma_and_bits(db, !da, j);
        lemma_not_bits(da, j);
    }
}

/// The words of value `i` that the first variable supports and of the second
/// variable's values that some such word allows.
fn binary_support_chirho(da: u64, db: u64, allowed: &Vec<u64>) -> (r: (u64, u64))
    ensures
        forall|i: int| #[trigger] bit64(r.0, i) == supports_a(da, db, allowed@, i),
        forall|j: int| #[trigger] bit64(r.1, j) == supports_b(da, db, allowed@, j),
{
    let mut new_a: u64 = 0;
    let mut new_b: u64 = 0;
    let mut i: u64 = 0;
    proof {
        lemma_zero_iff_no_bits(0);
    }
    while i < 64
        invariant
            i <= 64,
            forall|t: int| #[trigger] bit64(new_a, t) == (t < i && supports_a(da, db, allowed@, t)),
            forall|t: int| #[trigger] bit64(new_b, t) == (bit64(db, t) && exists|s: int|
                0 <= s < i && #[trigger] bit64(da, s) && s < allowed.len() && bit64(allowed@[s], t)),
        decreases 64 - i,
    {
        let ghost pa = new_a;
        let ghost pb = new_b;
        proof {
            lemma_mask_test(da, i);
        }
        let mut compat: u64 = 0;
        if da & (1u64 << i) != 0 {
            if (i as usize) < allowed.len() {
                compat = allowed[i as usize] & db;
            }
            if compat != 0 {
                new_a = new_a | (1u64 << i);
                new_b = new_b | compat;
            }
        }
        proof {
            lemma_zero_iff_no_bits(compat);
            assert forall|t: int| #[trigger] bit64(new_a, t) == (t < i + 1 && supports_a(da, db, allowed@, t)) by {
                lemma_or_bits(pa, 1u64 << i, t);
                lemma_shl_bits(i, t);
                if t == i && i < allowed.len() {
                    lemma_zero_iff_no_bits(allowed@[t] & db);
                }
            }
            assert forall|t: int| #[trigger] bit64(new_b, t) == (bit64(db, t) && exists|s: int|
                0 <= s < i + 1 && #[trigger] bit64(da, s) && s < allowed.len() && bit64(allowed@[s], t)) by {
                lemma_or_bits(pb, compat, t);
                if i < allowed.len() {
                    lemma_and_bits(allowed@[i as int], db, t);
                }
                if bit64(db, t) && exists|s: int| 0 <= s < i + 1 && #[trigger] bit64(da, s) && s < allowed.len() && bit64(allowed@[s], t) {
                    let s = choose|s: int| 0 <= s < i + 1 && #[trigger] bit64(da, s) && s < allowed.len() && bit64(allowed@[s], t);
                    if s < i {
                        assert(exists|s: int| 0 <= s < i && #[trigger] bit64(da, s) && s < allowed.len() && bit64(allowed@[s], t));
                    } else {
                        assert(compat == allowed@[i as int] & db);
                    }
                }
            }
        }
        i = i + 1;
    }
    proof {
        assert forall|j: int| #[trigger] bit64(new_b, j) == supports_b(da, db, allowed@, j) by {
            if supports_b(da, db, allowed@, j) {
                let s = choose|s: int| #[trigger] bit64(da, s) && s < allowed.len() && bit64(allowed@[s], j);
                assert(0 <= s < 64);
            }
        }
        assert forall|t: int| #[trigger] bit64(new_a, t) == supports_a(da, db, allowed@, t) by {
            if supports_a(da, db, allowed@, t) {
                assert(t < 64);
            }
        }
    }
    (new_a, new_b)
}

/// Narrow the domains by one constraint. Reports whether a domain changed.
fn apply_constraint_chirho(result: &mut Vec<u64>, c: &ConstraintChirho) -> (changed: bool)
    requires
        cons_ok(*c, old(result).len() as int),
    ensures
        narrower(final(result)@, old(result)@),
        changed == (final(result)@ != old(result)@),
        forall|x: Seq<u64>| within(old(result)@, x) && satisfies(*c, x) ==> #[trigger] within(final(result)@, x),
        !changed ==> at_fixpoint(*c, old(result)@),
        at_fixpoint(*c, old(result)@) ==> !changed,
        forall|r2: Seq<u64>|
            narrower(r2, old(result)@) && at_fixpoint(*c, r2) && keeps_nonempty(*c, r2) ==> #[trigger] narrower(
                r2,
                final(result)@,
            ),
{
    let ghost d0 = result@;
    match c {
        ConstraintChirho::EqualChirho { var_a_chirho, var_b_chirho } => {
            let a = *var_a_chirho;
            let b = *var_b_chirho;
            let inter = result[a] & result[b];
            let mut changed = false;
            if result[a] != inter {
                result.set(a, inter);
                changed = true;
            }
            if result[b] != inter {
                result.set(b, inter);
                changed = true;
            }
            proof {
                let w0 = d0[a as int];
                assert(w0 & w0 == w0) by (bit_vector);
                if a == b {
                    let w = d0[a as int];
                    assert(w & w == w) by (bit_vector);
                }
                assert forall|i: int, j: int| 0 <= i < d0.len() && #[trigger] bit64(result@[i], j) implies bit64(d0[i], j) by {
                    lemma_and_bits(d0[a as int], d0[b as int], j);
                }
                assert forall|x: Seq<u64>| within(d0, x) && satisfies(*c, x) implies #[trigger] within(result@, x) by {
                    assert forall|i: int| 0 <= i < x.len() implies #[trigger] bit64(result@[i], x[i] as int) by {
                        lemma_and_bits(d0[a as int], d0[b as int], x[i] as int);
                        assert(bit64(d0[a as int], x[a as int] as int));
                        assert(bit64(d0[b as int], x[b as int] as int));
                    }
                }
                if changed {
                    if d0[b as int] != inter {
                        assert(result@[b as int] != d0[b as int]);
                    } else {
                        assert(result@[a as int] != d0[a as int]);
                    }
                } else {
                    assert(result@ =~= d0);
                }
                assert forall|r2: Seq<u64>|
                    narrower(r2, d0) && at_fixpoint(*c, r2) && keeps_nonempty(*c, r2) implies #[trigger] narrower(
                        r2,
                        result@,
                    ) by {
                    assert forall|i: int, j: int| 0 <= i < result@.len() && #[trigger] bit64(r2[i], j) implies bit64(
                        result@[i],
                        j,
                    ) by {
                        lemma_and_bits(d0[a as int], d0[b as int], j);
                        if i == a as int || i == b as int {
                            assert(bit64(r2[a as int], j) && bit64(r2[b as int], j));
                            assert(bit64(d0[a as int], j) && bit64(d0[b as int], j));
                        } else {
                            assert(bit64(d0[i], j));
                        }
                    }
                }
            }
            changed
        },
        ConstraintChirho::NotEqualChirho { var_a_chirho, var_b_chirho } => {
            let a = *var_a_chirho;
            let b = *var_b_chirho;
            let mut changed = false;
            if BitVec64Chirho(result[a]).popcount_chirho() == 1 {
                let new_b = result[b] & !result[a];
                if result[b] != new_b {
                    result.set(b, new_b);
                    changed = true;
                }
            }
            let ghost d1 = result@;
            if BitVec64Chirho(result[b]).popcount_chirho() == 1 {
                let new_a = result[a] & !result[b];
                if result[a] != new_a {
                    result.set(a, new_a);
                    changed = true;
                }
            }
            proof {
                assert(narrower(d1, d0)) by {
                    assert forall|i: int, j: int| 0 <= i < d0.len() && #[trigger] bit64(d1[i], j) implies bit64(d0[i], j) by {
                        lemma_and_bits(d0[b as int], !d0[a as int], j);
                    }
                }
                assert(narrower(result@, d1)) by {
                    assert forall|i: int, j: int| 0 <= i < d1.len() && #[trigger] bit64(result@[i], j) implies bit64(d1[i], j) by {
                        lemma_and_bits(d1[a as int], !d1[b as int], j);
                    }
                }
                assert forall|i: int, j: int| 0 <= i < d0.len() && #[trigger] bit64(result@[i], j) implies bit64(d0[i], j) by {
                    assert(bit64(d1[i], j));
                }
                assert forall|x: Seq<u64>| within(d0, x) && satisfies(*c, x) implies #[trigger] within(result@, x) by {
                    let xa = x[a as int] as int;
                    let xb = x[b as int] as int;
                    assert(bit64(d0[a as int], xa) && bit64(d0[b as int], xb));
                    if popcount64(d0[a as int]) == 1 {
                        lemma_single_bit(d0[a as int]);
                        lemma_and_bits(d0[b as int], !d0[a as int], xb);
                        lemma_not_bits(d0[a as int], xb);
                    }
                    assert(bit64(d1[b as int], xb));
                    assert(bit64(d1[a as int], xa));
                    if popcount64(d1[b as int]) == 1 {
                        lemma_single_bit(d1[b as int]);
                        lemma_and_bits(d1[a as int], !d1[b as int], xa);
                        lemma_not_bits(d1[b as int], xa);
                    }
                    assert forall|i: int| 0 <= i < x.len() implies #[trigger] bit64(result@[i], x[i] as int) by {
                        assert(bit64(d0[i], x[i] as int));
                        if i != a && i != b {
                            assert(result@[i] == d0[i]);
                        }
                    }
                }
                if changed {
                    if d1 != d0 {
                        assert(d1[b as int] != d0[b as int]);
                        if a == b {
                            assert(result@[b as int] != d0[b as int]) by {
                                lemma_popcount64_mono(d1[b as int], d0[b as int]);
                            }
                        } else {
                            assert(result@[b as int] == d1[b as int]);
                        }
                    } else {
                        assert(result@[a as int] != d0[a as int]);
                    }
                } else {
                    assert(result@ =~= d0);
                }
                assert forall|r2: Seq<u64>|
                    narrower(r2, d0) && at_fixpoint(*c, r2) && keeps_nonempty(*c, r2) implies #[trigger] narrower(
                        r2,
                        result@,
                    ) by {
                    let ra = r2[a as int];
                    let rb = r2[b as int];
                    assert forall|j: int| #[trigger] bit64(ra, j) implies bit64(d0[a as int], j) by {}
                    assert forall|j: int| #[trigger] bit64(rb, j) implies bit64(d0[b as int], j) by {}
                    assert(narrower(r2, d1)) by {
                        if popcount64(d0[a as int]) == 1 {
                            lemma_ne_keeps(d0[a as int], d0[b as int], ra, rb);
                        }
                        assert forall|i: int, j: int| 0 <= i < d1.len() && #[trigger] bit64(r2[i], j) implies bit64(
                            d1[i],
                            j,
                        ) by {
                            assert(bit64(d0[i], j));
                        }
                    }
                    assert forall|j: int| #[trigger] bit64(ra, j) implies bit64(d1[a as int], j) by {}
                    assert forall|j: int| #[trigger] bit64(rb, j) implies bit64(d1[b as int], j) by {}
                    if popcount64(d1[b as int]) == 1 {
                        lemma_ne_keeps(d1[b as int], d1[a as int], rb, ra);
                    }
                    assert forall|i: int, j: int| 0 <= i < result@.len() && #[trigger] bit64(r2[i], j) implies bit64(
                        result@[i],
                        j,
                    ) by {
                        assert(bit64(d1[i], j));
                    }
                }
            }
            changed
        },
        ConstraintChirho::FixedChirho { var_chirho, value_chirho } => {
            let v = *var_chirho;
            let fixed = 1u64 << *value_chirho;
            let new_v = result[v] & fixed;
            let mut changed = false;
            if result[v] != new_v {
                result.set(v, new_v);
                changed = true;
            }
            proof {
                assert forall|i: int, j: int| 0 <= i < d0.len() && #[trigger] bit64(result@[i], j) implies bit64(d0[i], j) by {
                    lemma_and_bits(d0[v as int], fixed, j);
                }
                assert forall|x: Seq<u64>| within(d0, x) && satisfies(*c, x) implies #[trigger] within(result@, x) by {
                    assert forall|i: int| 0 <= i < x.len() implies #[trigger] bit64(result@[i], x[i] as int) by {
                        assert(bit64(d0[i], x[i] as int));
                        lemma_and_bits(d0[v as int], fixed, x[i] as int);
                        lemma_shl_bits(*value_chirho, x[i] as int);
                    }
                }
                if !changed {
                    assert(result@ =~= d0);
                }
                assert forall|r2: Seq<u64>|
                    narrower(r2, d0) && at_fixpoint(*c, r2) && keeps_nonempty(*c, r2) implies #[trigger] narrower(
                        r2,
                        result@,
                    ) by {
                    assert forall|i: int, j: int| 0 <= i < result@.len() && #[trigger] bit64(r2[i], j) implies bit64(
                        result@[i],
                        j,
                    ) by {
                        assert(bit64(d0[i], j));
                        lemma_and_bits(d0[v as int], fixed, j);
                        lemma_and_bits(r2[v as int], fixed, j);
                    }
                }
            }
            changed
        },
        ConstraintChirho::BinaryChirho { var_a_chirho, var_b_chirho, allowed_pairs_chirho } => {
            let a = *var_a_chirho;
            let b = *var_b_chirho;
            let (new_a, new_b) = binary_support_chirho(result[a], result[b], allowed_pairs_chirho);
            if a == b {
                let changed = result[b] != new_b;
                result.set(b, new_b);
                proof {
                    let d = d0[b as int];
                    let al = allowed_pairs_chirho@;
                    assert forall|i: int, j: int| 0 <= i < d0.len() && #[trigger] bit64(result@[i], j) implies bit64(d0[i], j) by {}
                    assert forall|x: Seq<u64>| within(d0, x) && satisfies(*c, x) implies #[trigger] within(result@, x) by {
                        let xb = x[b as int] as int;
                        assert(bit64(d, xb));
                        assert(supports_b(d, d, al, xb));
                        assert forall|i: int| 0 <= i < x.len() implies #[trigger] bit64(result@[i], x[i] as int) by {
                            assert(bit64(d0[i], x[i] as int));
                        }
                    }
                    if at_fixpoint(*c, d0) {
                        assert forall|j: int| #[trigger] bit64(new_b, j) == bit64(d, j) by {}
                        lemma_bits_ext(new_b, d);
                    }
                    if changed {
                        assert(result@[b as int] != d0[b as int]);
                    } else {
                        assert(result@ =~= d0);
                        assert forall|j: int| #[trigger] bit64(d, j) implies supports_b(d, d, al, j) by {
                            assert(bit64(new_b, j));
                        }
                    }
                    assert forall|r2: Seq<u64>|
                        narrower(r2, d0) && at_fixpoint(*c, r2) && keeps_nonempty(*c, r2) implies #[trigger] narrower(
                            r2,
                            result@,
                        ) by {
                        let rb = r2[b as int];
                        assert forall|j: int| #[trigger] bit64(rb, j) implies bit64(new_b, j) by {
                            assert(supports_b(rb, rb, al, j));
                            let i = choose|i: int| #[trigger] bit64(rb, i) && i < al.len() && bit64(al[i], j);
                            assert(bit64(d, i));
                            assert(bit64(d, j));
                        }
                        assert forall|i: int, j: int| 0 <= i < result@.len() && #[trigger] bit64(r2[i], j) implies bit64(
                            result@[i],
                            j,
                        ) by {
                            if i != b as int {
                                assert(bit64(d0[i], j));
                            }
                        }
                    }
                }
                return changed;
            }
            let mut changed = false;
            if result[a] != new_a {
                result.set(a, new_a);
                changed = true;
            }
            if result[b] != new_b {
                result.set(b, new_b);
                changed = true;
            }
            proof {
                let da = d0[a as int];
                let db = d0[b as int];
                let al = allowed_pairs_chirho@;
                assert forall|i: int, j: int| 0 <= i < d0.len() && #[trigger] bit64(result@[i], j) implies bit64(d0[i], j) by {}
                assert forall|x: Seq<u64>| within(d0, x) && satisfies(*c, x) implies #[trigger] within(result@, x) by {
                    let xa = x[a as int] as int;
                    let xb = x[b as int] as int;
                    assert(bit64(da, xa) && bit64(db, xb));
                    lemma_and_bits(al[xa], db, xb);
                    lemma_zero_iff_no_bits(al[xa] & db);
                    assert(supports_a(da, db, al, xa));
                    assert(supports_b(da, db, al, xb));
                    assert forall|i: int| 0 <= i < x.len() implies #[trigger] bit64(result@[i], x[i] as int) by {
                        assert(bit64(d0[i], x[i] as int));
                    }
                }
                if at_fixpoint(*c, d0) {
                    assert forall|i: int| #[trigger] bit64(new_a, i) == bit64(da, i) by {}
                    assert forall|j: int| #[trigger] bit64(new_b, j) == bit64(db, j) by {}
                    lemma_bits_ext(new_a, da);
                    lemma_bits_ext(new_b, db);
                }
                if changed {
                    if d0[b as int] != new_b {
                        assert(result@[b as int] != d0[b as int]);
                    } else {
                        assert(result@[a as int] != d0[a as int]);
                    }
                } else {
                    assert(result@ =~= d0);
                    assert forall|i: int| #[trigger] bit64(da, i) implies supports_a(da, db, al, i) by {
                        assert(bit64(new_a, i));
                    }
                    assert forall|j: int| #[trigger] bit64(db, j) implies supports_b(da, db, al, j) by {
                        assert(bit64(new_b, j));
                    }
                }
                assert forall|r2: Seq<u64>|
                    narrower(r2, d0) && at_fixpoint(*c, r2) && keeps_nonempty(*c, r2) implies #[trigger] narrower(
                        r2,
                        result@,
                    ) by {
                    let ra = r2[a as int];
                    let rb = r2[b as int];
                    assert forall|i: int| #[trigger] bit64(ra, i) implies bit64(new_a, i) by {
                        assert(supports_a(ra, rb, al, i));
                        assert(bit64(da, i));
                        lemma_zero_iff_no_bits(al[i] & rb);
                        let j = choose|j: int| bit64(al[i] & rb, j);
                        lemma_and_bits(al[i], rb, j);
                        assert(bit64(db, j));
                        lemma_and_bits(al[i], db, j);
                        lemma_zero_iff_no_bits(al[i] & db);
                    }
                    assert forall|j: int| #[trigger] bit64(rb, j) implies bit64(new_b, j) by {
                        assert(supports_b(ra, rb, al, j));
                        let i = choose|i: int| #[trigger] bit64(ra, i) && i < al.len() && bit64(al[i], j);
                        assert(bit64(da, i));
                        assert(bit64(db, j));
                    }
                    assert forall|i: int, j: int| 0 <= i < result@.len() && #[trigger] bit64(r2[i], j) implies bit64(
                        result@[i],
                        j,
                    ) by {
                        if i != a as int && i != b as int {
                            assert(bit64(d0[i], j));
                        }
                    }
                }
            }
            changed
        },
    }
}

/// `r` is what propagation gives: narrower than `ds`, keeping every solution,
/// and left unchanged by every constraint.
pub open spec fn propagated(ds: Seq<u64>, cs: Seq<ConstraintChirho>, r: Seq<u64>) -> bool {
    &&& narrower(r, ds)
    &&& forall|x: Seq<u64>| #[trigger] is_solution(ds, cs, x) ==> within(r, x)
    &&& forall|k: int| 0 <= k < cs.len() ==> at_fixpoint(#[trigger] cs[k], r)
    &&& holds_stable(ds, cs, r)
    &&& (forall|k: int| 0 <= k < cs.len() ==> at_fixpoint(#[trigger] cs[k], ds)) ==> r == ds
}

/// Propagation is idempotent: propagating its result again changes nothing.
pub proof fn lemma_propagate_idempotent(ds: Seq<u64>, cs: Seq<ConstraintChirho>, r: Seq<u64>, r2: Seq<u64>)
    requires
        propagated(ds, cs, r),
        propagated(r, cs, r2),
    ensures
        r2 == r,
{
}

/// Without disequalities, propagation gives the greatest domains below the
/// input that every constraint leaves unchanged.
pub proof fn lemma_propagate_greatest(ds: Seq<u64>, cs: Seq<ConstraintChirho>, r: Seq<u64>, r2: Seq<u64>)
    requires
        propagated(ds, cs, r),
        forall|k: int| 0 <= k < cs.len() ==> !(#[trigger] cs[k] is NotEqualChirho),
        narrower(r2, ds),
        forall|k: int| 0 <= k < cs.len() ==> at_fixpoint(#[trigger] cs[k], r2),
    ensures
        narrower(r2, r),
{
    assert(stable(cs, r2)) by {
        assert forall|k: int| 0 <= k < cs.len() implies at_fixpoint(#[trigger] cs[k], r2) && keeps_nonempty(
            cs[k],
            r2,
        ) by {
            assert(!(cs[k] is NotEqualChirho));
        }
    }
}

/// Apply the constraints in turn until none of them changes a domain. A
/// binary constraint on one variable narrows its domain to the values that
/// some value of the domain allows.
pub fn propagate_domains_chirho(domains_chirho: &Vec<u64>, constraints_chirho: &[ConstraintChirho]) -> (r: Vec<u64>)
    requires
        constraints_ok(constraints_chirho@, domains_chirho.len() as int),
    ensures
        propagated(domains_chirho@, constraints_chirho@, r@),
{
    let mut result_chirho: Vec<u64> = Vec::new();
    let mut i: usize = 0;
    while i < domains_chirho.len()
        invariant
            i <= domains_chirho.len(),
            result_chirho@ == domains_chirho@.subrange(0, i as int),
        decreases domains_chirho.len() - i,
    {
        result_chirho.push(domains_chirho[i]);
        i = i + 1;
    }
    proof {
        assert(result_chirho@ =~= domains_chirho@);
    }
    let ghost ds = domains_chirho@;
    proof {
        assert forall|r2: Seq<u64>| narrower(r2, ds) && #[trigger] stable(constraints_chirho@, r2) implies narrower(
            r2,
            result_chirho@,
        ) by {}
    }
    let ghost cs = constraints_chirho@;
    let mut changed_chirho = true;
    while changed_chirho
        invariant
            ds == domains_chirho@,
            cs == constraints_chirho@,
            constraints_ok(cs, ds.len() as int),
            narrower(result_chirho@, ds),
            forall|x: Seq<u64>| #[trigger] is_solution(ds, cs, x) ==> within(result_chirho@, x),
            !changed_chirho ==> forall|k: int| 0 <= k < cs.len() ==> at_fixpoint(#[trigger] cs[k], result_chirho@),
            holds_stable(ds, cs, result_chirho@),
            (forall|t: int| 0 <= t < cs.len() ==> at_fixpoint(#[trigger] cs[t], ds)) ==> result_chirho@ == ds,
        decreases pop_total(result_chirho@) + if changed_chirho { 1nat } else { 0nat },
    {
        changed_chirho = false;
        let ghost start = result_chirho@;
        let mut k: usize = 0;
        while k < constraints_chirho.len()
            invariant
                ds == domains_chirho@,
                cs == constraints_chirho@,
                constraints_ok(cs, ds.len() as int),
                k <= cs.len(),
                narrower(start, ds),
                narrower(result_chirho@, start),
                forall|x: Seq<u64>| #[trigger] is_solution(ds, cs, x) ==> within(result_chirho@, x),
                changed_chirho ==> pop_total(result_chirho@) < pop_total(start),
                !changed_chirho ==> result_chirho@ == start,
                !changed_chirho ==> forall|t: int| 0 <= t < k ==> at_fixpoint(#[trigger] cs[t], result_chirho@),
                holds_stable(ds, cs, result_chirho@),
                (forall|t: int| 0 <= t < cs.len() ==> at_fixpoint(#[trigger] cs[t], ds)) ==> result_chirho@ == ds
                    && result_chirho@ == start && !changed_chirho,
            decreases cs.len() - k,
        {
            let ghost before = result_chirho@;
            assert(cons_ok(cs[k as int], ds.len() as int));
            let ch = apply_constraint_chirho(&mut result_chirho, &constraints_chirho[k]);
            proof {
                lemma_pop_total_narrower(result_chirho@, before);
                lemma_pop_total_narrower(before, start);
                assert forall|i: int, j: int| 0 <= i < start.len() && #[trigger] bit64(result_chirho@[i], j) implies bit64(start[i], j) by {
                    assert(bit64(before[i], j));
                }
                assert forall|x: Seq<u64>| #[trigger] is_solution(ds, cs, x) implies within(result_chirho@, x) by {
                    assert(satisfies(cs[k as int], x));
                }
                assert forall|r2: Seq<u64>| narrower(r2, ds) && #[trigger] stable(cs, r2) implies narrower(
                    r2,
                    result_chirho@,
                ) by {
                    assert(narrower(r2, before));
                    assert(at_fixpoint(cs[k as int], r2) && keeps_nonempty(cs[k as int], r2));
                }
            }
            if ch {
                changed_chirho = true;
            }
            k = k + 1;
        }
        proof {
            assert forall|i: int, j: int| 0 <= i < ds.len() && #[trigger] bit64(result_chirho@[i], j) implies bit64(ds[i], j) by {
                assert(bit64(start[i], j));
            }
        }
    }
    result_chirho
}

/// Some solution from position `from` on assigns `x`.
pub open spec fn found(sols: Seq<SolutionChirho>, from: int, x: Seq<u64>) -> bool {
    exists|k: int| from <= k < sols.len() && #[trigger] sols[k].assignments_chirho@ == x
}

/// What a search adds to `old`, giving `new`: solutions of the domains, no
/// two alike, all of them unless the limit `max` (0 for none) was reached,
/// and never more than the limit.
pub open spec fn search_post(
    ds: Seq<u64>,
    cs: Seq<ConstraintChirho>,
    old: Seq<SolutionChirho>,
    new: Seq<SolutionChirho>,
    max: usize,
) -> bool {
    &&& old.len() <= new.len()
    &&& new.subrange(0, old.len() as int) == old
    &&& forall|k: int| old.len() <= k < new.len() ==> is_solution(ds, cs, #[trigger] new[k].assignments_chirho@)
    &&& forall|k1: int, k2: int| old.len() <= k1 < k2 < new.len()
        ==> #[trigger] new[k1].assignments_chirho@ != #[trigger] new[k2].assignments_chirho@
    &&& (max == 0 || new.len() < max) ==> forall|x: Seq<u64>| #[trigger] is_solution(ds, cs, x) ==> found(new, old.len() as int, x)
    &&& (max > 0 && old.len() <= max) ==> new.len() <= max
}

/// At a common fixpoint of the constraints, domains of one value each give a
/// solution.
proof fn lemma_fixpoint_sat(c: ConstraintChirho, p: Seq<u64>, x: Seq<u64>)
    requires
        cons_ok(c, p.len() as int),
        at_fixpoint(c, p),
        x.len() == p.len(),
        forall|i: int| 0 <= i < p.len() ==> popcount64(#[trigger] p[i]) == 1 && bit64(p[i], x[i] as int),
    ensures
        satisfies(c, x),
{
    match c {
        ConstraintChirho::EqualChirho { var_a_chirho, var_b_chirho } => {
            let a = var_a_chirho as int;
            let b = var_b_chirho as int;
            assert(popcount64(p[a]) == 1 && popcount64(p[b]) == 1);
            lemma_single_bit(p[a]);
        },
        ConstraintChirho::NotEqualChirho { var_a_chirho, var_b_chirho } => {
            let a = var_a_chirho as int;
            let b = var_b_chirho as int;
            assert(popcount64(p[a]) == 1 && popcount64(p[b]) == 1);
            assert(bit64(p[a], x[a] as int) && bit64(p[b], x[b] as int));
            lemma_and_bits(p[b], !p[a], x[b] as int);
            lemma_not_bits(p[a], x[b] as int);
        },
        ConstraintChirho::FixedChirho { var_chirho, value_chirho } => {
            let v = var_chirho as int;
            assert(popcount64(p[v]) == 1 && bit64(p[v], x[v] as int));
            lemma_and_bits(p[v], 1u64 << value_chirho, x[v] as int);
            lemma_shl_bits(value_chirho, x[v] as int);
        },
        ConstraintChirho::BinaryChirho { var_a_chirho, var_b_chirho, allowed_pairs_chirho } => {
            let a = var_a_chirho as int;
            let b = var_b_chirho as int;
            let al = allowed_pairs_chirho@;
            assert(popcount64(p[a]) == 1 && popcount64(p[b]) == 1);
            assert(bit64(p[a], x[a] as int));
            if a == b {
                assert(supports_b(p[a], p[b], al, x[b] as int));
                let i = choose|i: int| #[trigger] bit64(p[a], i) && i < al.len() && bit64(al[i], x[b] as int);
                lemma_single_bit(p[a]);
                assert(i == x[a] as int);
            } else {
                assert(supports_a(p[a], p[b], al, x[a] as int));
                let w = al[x[a] as int] & p[b];
                lemma_zero_iff_no_bits(w);
                let j = choose|j: int| bit64(w, j);
                lemma_and_bits(al[x[a] as int], p[b], j);
                lemma_single_bit(p[b]);
            }
        },
    }
}

fn copy_words_chirho(v: &Vec<u64>) -> (r: Vec<u64>)
    ensures
        r@ == v@,
{
    let mut out: Vec<u64> = Vec::new();
    let mut i: usize = 0;
    while i < v.len()
        invariant
            i <= v.len(),
            out@ == v@.subrange(0, i as int),
        decreases v.len() - i,
    {
        out.push(v[i]);
        i = i + 1;
    }
    proof {
        assert(out@ =~= v@);
    }
    out
}

/// Backtracking search: propagate, stop on an empty domain, record a
/// solution when every domain holds one value, else branch on the values
/// (lowest first) of a variable with the fewest values above one.
fn search_chirho(
    domains_chirho: &Vec<u64>,
    constraints_chirho: &[ConstraintChirho],
    solutions_chirho: &mut Vec<SolutionChirho>,
    max_chirho: usize,
)
    requires
        constraints_ok(constraints_chirho@, domains_chirho.len() as int),
        forall|k: int| 0 <= k < old(solutions_chirho).len()
            ==> !within(domains_chirho@, #[trigger] old(solutions_chirho)@[k].assignments_chirho@),
    ensures
        search_post(domains_chirho@, constraints_chirho@, old(solutions_chirho)@, final(solutions_chirho)@, max_chirho),
    decreases pop_total(domains_chirho@),
{
    let ghost ds = domains_chirho@;
    let ghost cs = constraints_chirho@;
    let ghost s0 = solutions_chirho@;
    let ghost o = s0.len() as int;
    if max_chirho > 0 && solutions_chirho.len() >= max_chirho {
        proof {
            assert(solutions_chirho@.subrange(0, o) =~= s0);
        }
        return;
    }
    let p = propagate_domains_chirho(domains_chirho, constraints_chirho);
    let n = p.len();
    let mut i: usize = 0;
    while i < n
        invariant
            n == p.len(),
            i <= n,
            forall|t: int| 0 <= t < i ==> p@[t] != 0,
            propagated(ds, cs, p@),
            solutions_chirho@ == s0,
            s0 == old(solutions_chirho)@,
            o == s0.len(),
            ds == domains_chirho@,
            cs == constraints_chirho@,
        decreases n - i,
    {
        if p[i] == 0 {
            proof {
                lemma_zero_iff_no_bits(0);
                assert forall|x: Seq<u64>| #[trigger] is_solution(ds, cs, x) implies found(solutions_chirho@, o, x) by {
                    assert(within(p@, x));
                    assert(bit64(p@[i as int], x[i as int] as int));
                }
                assert(solutions_chirho@.subrange(0, o) =~= s0);
            }
            return;
        }
        i = i + 1;
    }
    let mut all_single = true;
    i = 0;
    while i < n
        invariant
            n == p.len(),
            i <= n,
            all_single == forall|t: int| 0 <= t < i ==> popcount64(#[trigger] p@[t]) == 1,
        decreases n - i,
    {
        if BitVec64Chirho(p[i]).popcount_chirho() != 1 {
            all_single = false;
        }
        i = i + 1;
    }
    if all_single {
        let mut x: Vec<u64> = Vec::new();
        i = 0;
        while i < n
            invariant
                n == p.len(),
                i <= n,
                x.len() == i,
                forall|t: int| 0 <= t < n ==> popcount64(#[trigger] p@[t]) == 1,
                forall|t: int| 0 <= t < i ==> #[trigger] x@[t] == u64_trailing_zeros(p@[t]),
            decreases n - i,
        {
            let tz = BitVec64Chirho(p[i]).ctz_chirho();
            x.push(tz as u64);
            i = i + 1;
        }
        proof {
            assert forall|t: int| 0 <= t < n implies popcount64(#[trigger] p@[t]) == 1 && bit64(p@[t], x@[t] as int) by {
                lemma_single_bit(p@[t]);
            }
            assert forall|k: int| 0 <= k < cs.len() implies satisfies(#[trigger] cs[k], x@) by {
                lemma_fixpoint_sat(cs[k], p@, x@);
            }
            assert forall|t: int| 0 <= t < x@.len() implies #[trigger] bit64(ds[t], x@[t] as int) by {
                assert(bit64(p@[t], x@[t] as int));
            }
            assert(is_solution(ds, cs, x@));
            assert forall|y: Seq<u64>| #[trigger] is_solution(ds, cs, y) implies y == x@ by {
                assert(within(p@, y));
                assert forall|t: int| 0 <= t < n implies y[t] == x@[t] by {
                    assert(bit64(p@[t], y[t] as int));
                    lemma_single_bit(p@[t]);
                }
                assert(y =~= x@);
            }
        }
        let ghost xv = x@;
        solutions_chirho.push(SolutionChirho { assignments_chirho: x });
        proof {
            let f = solutions_chirho@;
            assert(f[o].assignments_chirho@ == xv);
            assert(f.subrange(0, o) =~= s0);
            assert forall|y: Seq<u64>| #[trigger] is_solution(ds, cs, y) implies found(f, o, y) by {
                assert(f[o].assignments_chirho@ == y);
            }
        }
        return;
    }
    // Not every domain holds one value, and none is empty: some holds several.
    let mut var: usize = 0;
    let mut best: u32 = 65;
    i = 0;
    while i < n
        invariant
            n == p.len(),
            i <= n,
            best == 65 ==> forall|t: int| 0 <= t < i ==> popcount64(#[trigger] p@[t]) <= 1,
            best != 65 ==> var < n && popcount64(p@[var as int]) > 1 && best == popcount64(p@[var as int]),
        decreases n - i,
    {
        let pc = BitVec64Chirho(p[i]).popcount_chirho();
        if pc > 1 && pc < best {
            best = pc;
            var = i;
        }
        i = i + 1;
    }
    proof {
        if best == 65 {
            let t = choose|t: int| 0 <= t < n && popcount64(#[trigger] p@[t]) != 1;
            lemma_zero_iff_no_bits(p@[t]);
            let j = choose|j: int| bit64(p@[t], j);
            crate::bits::lemma_popcount64_pos(p@[t], j);
        }
    }
    let d = p[var];
    let mut val = d;
    proof {
        assert(solutions_chirho@.subrange(0, o) =~= s0);
        assert forall|x: Seq<u64>| #[trigger] is_solution(ds, cs, x) && !bit64(val, x[var as int] as int)
            implies found(solutions_chirho@, o, x) by {
            assert(within(p@, x));
            assert(bit64(p@[var as int], x[var as int] as int));
        }
    }
    while val != 0
        invariant
            ds == domains_chirho@,
            cs == constraints_chirho@,
            constraints_ok(cs, ds.len() as int),
            propagated(ds, cs, p@),
            var < p.len(),
            d == p@[var as int],
            popcount64(d) > 1,
            forall|j: int| #[trigger] bit64(val, j) ==> bit64(d, j),
            forall|k: int| 0 <= k < o ==> !within(ds, #[trigger] s0[k].assignments_chirho@),
            o == s0.len(),
            s0 == old(solutions_chirho)@,
            branch_inv(ds, cs, var as int, val, s0, solutions_chirho@, max_chirho),
        decreases val,
    {
        let low = BitVec64Chirho(val).lowest_bit_chirho().0;
        proof {
            crate::bits::lemma_clear_lowest(val);
        }
        let next = BitVec64Chirho(val).clear_lowest_chirho().0;
        let mut branch = copy_words_chirho(&p);
        branch.set(var, low);
        let ghost before = solutions_chirho@;
        proof {
            lemma_branch_enter(ds, cs, p@, var as int, val, branch@, s0, before, max_chirho);
        }
        search_chirho(&branch, constraints_chirho, solutions_chirho, max_chirho);
        proof {
            lemma_branch_leave(ds, cs, p@, var as int, val, branch@, s0, before, solutions_chirho@, max_chirho);
        }
        if max_chirho > 0 && solutions_chirho.len() >= max_chirho {
            return;
        }
        val = next;
    }
    proof {
        lemma_branch_done(ds, cs, var as int, s0, solutions_chirho@, max_chirho);
    }
}

/// The state of the branching loop: the solutions found past `s0` are
/// solutions whose branch variable takes none of the values still in `val`,
/// no two alike, the limit not reached, and every solution outside `val`
/// found.
pub open spec fn branch_inv(
    ds: Seq<u64>,
    cs: Seq<ConstraintChirho>,
    var: int,
    val: u64,
    s0: Seq<SolutionChirho>,
    sols: Seq<SolutionChirho>,
    max: usize,
) -> bool {
    &&& s0.len() <= sols.len()
    &&& sols.subrange(0, s0.len() as int) == s0
    &&& (max == 0 || sols.len() < max)
    &&& forall|k: int| s0.len() <= k < sols.len() ==> is_solution(ds, cs, #[trigger] sols[k].assignments_chirho@)
        && !bit64(val, sols[k].assignments_chirho@[var] as int)
    &&& forall|k1: int, k2: int| s0.len() <= k1 < k2 < sols.len()
        ==> #[trigger] sols[k1].assignments_chirho@ != #[trigger] sols[k2].assignments_chirho@
    &&& forall|x: Seq<u64>| #[trigger] is_solution(ds, cs, x) && !bit64(val, x[var] as int) ==> found(sols, s0.len() as int, x)
}

/// Entering the branch on the lowest value of `val`: the branch domains are
/// smaller, and no solution recorded so far lies in them.
proof fn lemma_branch_enter(
    ds: Seq<u64>,
    cs: Seq<ConstraintChirho>,
    p: Seq<u64>,
    var: int,
    val: u64,
    branch: Seq<u64>,
    s0: Seq<SolutionChirho>,
    before: Seq<SolutionChirho>,
    max: usize,
)
    requires
        propagated(ds, cs, p),
        0 <= var < p.len(),
        popcount64(p[var]) > 1,
        val != 0,
        forall|j: int| #[trigger] bit64(val, j) ==> bit64(p[var], j),
        branch == p.update(var, lowest64(val)),
        forall|k: int| 0 <= k < s0.len() ==> !within(ds, #[trigger] s0[k].assignments_chirho@),
        branch_inv(ds, cs, var, val, s0, before, max),
    ensures
        narrower(branch, ds),
        pop_total(branch) < pop_total(ds),
        forall|k: int| 0 <= k < before.len() ==> !within(branch, #[trigger] before[k].assignments_chirho@),
{
    crate::bits::lemma_clear_lowest(val);
    let t = u64_trailing_zeros(val) as int;
    let low = lowest64(val);
    assert forall|j: int| #[trigger] bit64(low, j) == (j == t) by {
        lemma_shl_bits(t as u64, j);
    }
    assert(narrower(branch, p)) by {
        assert forall|i2: int, j: int| 0 <= i2 < p.len() && #[trigger] bit64(branch[i2], j) implies bit64(p[i2], j) by {
            if i2 == var {
                assert(bit64(val, j));
            }
        }
    }
    if branch == p {
        assert(branch[var] == low);
        crate::bits::lemma_popcount_card(low);
        assert(crate::bits::set64(low) =~= Set::<int>::empty().insert(t));
    }
    lemma_pop_total_narrower(branch, p);
    lemma_pop_total_narrower(p, ds);
    assert forall|i2: int, j: int| 0 <= i2 < ds.len() && #[trigger] bit64(branch[i2], j) implies bit64(ds[i2], j) by {
        assert(bit64(p[i2], j));
    }
    assert forall|k: int| 0 <= k < before.len() implies !within(branch, #[trigger] before[k].assignments_chirho@) by {
        let sx = before[k].assignments_chirho@;
        if within(branch, sx) {
            assert(within(ds, sx)) by {
                assert forall|i2: int| 0 <= i2 < sx.len() implies #[trigger] bit64(ds[i2], sx[i2] as int) by {
                    assert(bit64(branch[i2], sx[i2] as int));
                }
            }
            if k < s0.len() {
                assert(before.subrange(0, s0.len() as int)[k] == s0[k]);
            } else {
                assert(bit64(branch[var], sx[var] as int));
                assert(is_solution(ds, cs, sx));
            }
        }
    }
}

/// Leaving the branch: the loop state holds for `val` without its lowest
/// value, or the limit was reached and the search result is complete
/// enough to return.
proof fn lemma_branch_leave(
    ds: Seq<u64>,
    cs: Seq<ConstraintChirho>,
    p: Seq<u64>,
    var: int,
    val: u64,
    branch: Seq<u64>,
    s0: Seq<SolutionChirho>,
    before: Seq<SolutionChirho>,
    f: Seq<SolutionChirho>,
    max: usize,
)
    requires
        propagated(ds, cs, p),
        0 <= var < p.len(),
        val != 0,
        forall|j: int| #[trigger] bit64(val, j) ==> bit64(p[var], j),
        branch == p.update(var, lowest64(val)),
        narrower(branch, ds),
        branch_inv(ds, cs, var, val, s0, before, max),
        search_post(branch, cs, before, f, max),
    ensures
        (max == 0 || f.len() < max) ==> branch_inv(ds, cs, var, val & ((val - 1) as u64), s0, f, max),
        (max > 0 && f.len() >= max) ==> search_post(ds, cs, s0, f, max),
{
    crate::bits::lemma_clear_lowest(val);
    let t = u64_trailing_zeros(val) as int;
    let low = lowest64(val);
    let next = val & ((val - 1) as u64);
    let o = s0.len() as int;
    let b = before.len() as int;
    assert forall|j: int| #[trigger] bit64(low, j) == (j == t) by {
        lemma_shl_bits(t as u64, j);
    }
    assert forall|k: int| 0 <= k < b implies #[trigger] f[k] == before[k] by {
        assert(f.subrange(0, b)[k] == before[k]);
    }
    assert(f.subrange(0, o) =~= s0) by {
        assert forall|k: int| 0 <= k < o implies f.subrange(0, o)[k] == s0[k] by {
            assert(before.subrange(0, o)[k] == s0[k]);
        }
    }
    assert forall|k: int| b <= k < f.len() implies #[trigger] is_solution(ds, cs, f[k].assignments_chirho@)
        && f[k].assignments_chirho@[var] == t by {
        let sx = f[k].assignments_chirho@;
        assert(is_solution(branch, cs, sx));
        assert forall|i2: int| 0 <= i2 < sx.len() implies #[trigger] bit64(ds[i2], sx[i2] as int) by {
            assert(bit64(branch[i2], sx[i2] as int));
        }
        assert(bit64(branch[var], sx[var] as int));
    }
    assert forall|k: int| o <= k < f.len() implies is_solution(ds, cs, #[trigger] f[k].assignments_chirho@)
        && !bit64(next, f[k].assignments_chirho@[var] as int) by {
        if k < b {
            assert(f[k] == before[k]);
        } else {
            assert(is_solution(ds, cs, f[k].assignments_chirho@));
            assert(f[k].assignments_chirho@[var] == t);
        }
    }
    assert forall|k1: int, k2: int| o <= k1 < k2 < f.len()
        implies #[trigger] f[k1].assignments_chirho@ != #[trigger] f[k2].assignments_chirho@ by {
        if k2 < b {
            assert(f[k1] == before[k1] && f[k2] == before[k2]);
        } else if k1 < b {
            assert(f[k1] == before[k1]);
            assert(is_solution(ds, cs, f[k2].assignments_chirho@));
            assert(f[k2].assignments_chirho@[var] == t);
            assert(is_solution(ds, cs, before[k1].assignments_chirho@));
            assert(!bit64(val, before[k1].assignments_chirho@[var] as int));
        }
    }
    if max == 0 || f.len() < max {
        assert forall|x: Seq<u64>| #[trigger] is_solution(ds, cs, x) && !bit64(next, x[var] as int)
            implies found(f, o, x) by {
            if !bit64(val, x[var] as int) {
                assert(found(before, o, x));
                let k = choose|k: int| o <= k < before.len() && #[trigger] before[k].assignments_chirho@ == x;
                assert(f[k] == before[k]);
            } else {
                assert(within(p, x));
                assert(is_solution(branch, cs, x)) by {
                    assert forall|i2: int| 0 <= i2 < x.len() implies #[trigger] bit64(branch[i2], x[i2] as int) by {
                        assert(bit64(p[i2], x[i2] as int));
                    }
                }
                assert(found(f, b, x));
                let k = choose|k: int| b <= k < f.len() && #[trigger] f[k].assignments_chirho@ == x;
                assert(o <= k);
            }
        }
    }
}

/// When every value has been tried the loop state is the search result.
proof fn lemma_branch_done(
    ds: Seq<u64>,
    cs: Seq<ConstraintChirho>,
    var: int,
    s0: Seq<SolutionChirho>,
    f: Seq<SolutionChirho>,
    max: usize,
)
    requires
        branch_inv(ds, cs, var, 0u64, s0, f, max),
    ensures
        search_post(ds, cs, s0, f, max),
{
    lemma_zero_iff_no_bits(0);
}

/// All solutions of the domains and constraints.
pub open spec fn solution_set(ds: Seq<u64>, cs: Seq<ConstraintChirho>) -> Set<Seq<u64>> {
    Set::new(|x: Seq<u64>| is_solution(ds, cs, x))
}

/// Search from the given domains, collecting at most `max` solutions
/// (`max == 0`: all of them).
pub fn solve_domains_chirho(domains_chirho: &Vec<u64>, constraints_chirho: &[ConstraintChirho], max_chirho: usize)
    -> (r: Vec<SolutionChirho>)
    requires
        constraints_ok(constraints_chirho@, domains_chirho.len() as int),
    ensures
        search_post(domains_chirho@, constraints_chirho@, Seq::empty(), r@, max_chirho),
{
    let mut solutions_chirho: Vec<SolutionChirho> = Vec::new();
    search_chirho(domains_chirho, constraints_chirho, &mut solutions_chirho, max_chirho);
    solutions_chirho
}

/// The interface every solver backend offers.
pub trait SolverBackendChirho {
    /// Intersect two domains (AND).
    fn intersect_64_chirho(&self, a_chirho: u64, b_chirho: u64) -> (r: u64)
        ensures
            r == a_chirho & b_chirho,
    ;

    /// Union of two domains (OR).
    fn union_64_chirho(&self, a_chirho: u64, b_chirho: u64) -> (r: u64)
        ensures
            r == a_chirho | b_chirho,
    ;

    /// Complement of a domain (NOT).
    fn complement_64_chirho(&self, a_chirho: u64) -> (r: u64)
        ensures
            r == !a_chirho,
    ;

    /// Number of values (population count).
    fn popcount_64_chirho(&self, a_chirho: u64) -> (r: u32)
        ensures
            r == popcount64(a_chirho),
    ;

    /// Intersect each pair, results in the same order.
    fn intersect_batch_chirho(&self, pairs_chirho: &[(u64, u64)]) -> (r: Vec<u64>)
        ensures
            r.len() == pairs_chirho.len(),
            forall|i: int| 0 <= i < r.len() ==> #[trigger] r[i] == pairs_chirho@[i].0 & pairs_chirho@[i].1,
    {
        let mut out: Vec<u64> = Vec::new();
        let mut i: usize = 0;
        while i < pairs_chirho.len()
            invariant
                i <= pairs_chirho.len(),
                out.len() == i,
                forall|t: int| 0 <= t < i ==> #[trigger] out[t] == pairs_chirho@[t].0 & pairs_chirho@[t].1,
            decreases pairs_chirho.len() - i,
        {
            let (a, b) = pairs_chirho[i];
            out.push(self.intersect_64_chirho(a, b));
            i = i + 1;
        }
        out
    }

    /// Count the values of each domain, results in the same order.
    fn popcount_batch_chirho(&self, domains_chirho: &[u64]) -> (r: Vec<u32>)
        ensures
            r.len() == domains_chirho.len(),
            forall|i: int| 0 <= i < r.len() ==> #[trigger] r[i] == popcount64(domains_chirho@[i]),
    {
        let mut out: Vec<u32> = Vec::new();
        let mut i: usize = 0;
        while i < domains_chirho.len()
            invariant
                i <= domains_chirho.len(),
                out.len() == i,
                forall|t: int| 0 <= t < i ==> #[trigger] out[t] == popcount64(domains_chirho@[t]),
            decreases domains_chirho.len() - i,
        {
            out.push(self.popcount_64_chirho(domains_chirho[i]));
            i = i + 1;
        }
        out
    }

    /// Propagate the constraints until nothing changes.
    fn propagate_chirho(&self, domains_chirho: &DomainVecChirho, constraints_chirho: &[ConstraintChirho]) -> (r: DomainVecChirho)
        requires
            constraints_ok(constraints_chirho@, domains_chirho.len() as int),
        ensures
            propagated(domains_chirho@, constraints_chirho@, r@),
    ;

    /// Solutions of the problem, at most `max_solutions_chirho` of them (0: all).
    fn solve_chirho(
        &self,
        domains_chirho: &DomainVecChirho,
        constraints_chirho: &[ConstraintChirho],
        max_solutions_chirho: usize,
    ) -> (r: Vec<SolutionChirho>)
        requires
            constraints_ok(constraints_chirho@, domains_chirho.len() as int),
        ensures
            search_post(domains_chirho@, constraints_chirho@, Seq::empty(), r@, max_solutions_chirho),
    ;

    /// Whether the problem has a solution.
    fn is_satisfiable_chirho(&self, domains_chirho: &DomainVecChirho, constraints_chirho: &[ConstraintChirho]) -> bool
        requires
            constraints_ok(constraints_chirho@, domains_chirho.len() as int),
    {
        !self.solve_chirho(domains_chirho, constraints_chirho, 1).is_empty()
    }

    /// Number of solutions.
    fn count_solutions_chirho(&self, domains_chirho: &DomainVecChirho, constraints_chirho: &[ConstraintChirho]) -> u64
        requires
            constraints_ok(constraints_chirho@, domains_chirho.len() as int),
    {
        self.solve_chirho(domains_chirho, constraints_chirho, 0).len() as u64
    }

    /// What the backend reports about itself.
    fn info_chirho(&self) -> BackendInfoChirho;

    /// Whether the backend can be used.
    fn is_healthy_chirho(&self) -> bool {
        true
    }
}

/// The backend that computes everything on the CPU.
#[derive(Debug)]
pub struct CpuBackendChirho {
    parallel_chirho: bool,
}

impl CpuBackendChirho {
    /// Parallel search requested (the search itself runs sequentially).
    pub closed spec fn parallel(&self) -> bool {
        self.parallel_chirho
    }

    /// A CPU backend with the default settings.
    pub fn new_chirho() -> (r: Self)
        ensures
            r.parallel(),
    {
        Self { parallel_chirho: true }
    }

    /// A CPU backend with the given parallelism setting.
    pub fn with_parallel_chirho(parallel_chirho: bool) -> (r: Self)
        ensures
            r.parallel() == parallel_chirho,
    {
        Self { parallel_chirho }
    }
}

impl SolverBackendChirho for CpuBackendChirho {
    fn intersect_64_chirho(&self, a_chirho: u64, b_chirho: u64) -> (r: u64) {
        a_chirho & b_chirho
    }

    fn union_64_chirho(&self, a_chirho: u64, b_chirho: u64) -> (r: u64) {
        a_chirho | b_chirho
    }

    fn complement_64_chirho(&self, a_chirho: u64) -> (r: u64) {
        !a_chirho
    }

    fn popcount_64_chirho(&self, a_chirho: u64) -> (r: u32) {
        BitVec64Chirho(a_chirho).popcount_chirho()
    }

    fn propagate_chirho(&self, domains_chirho: &DomainVecChirho, constraints_chirho: &[ConstraintChirho]) -> (r: DomainVecChirho)
        ensures
            propagated(domains_chirho@, constraints_chirho@, r@),
    {
        propagate_domains_chirho(domains_chirho, constraints_chirho)
    }

    fn solve_chirho(
        &self,
        domains_chirho: &DomainVecChirho,
        constraints_chirho: &[ConstraintChirho],
        max_solutions_chirho: usize,
    ) -> (r: Vec<SolutionChirho>)
        ensures
            search_post(domains_chirho@, constraints_chirho@, Seq::empty(), r@, max_solutions_chirho),
    {
        solve_domains_chirho(domains_chirho, constraints_chirho, max_solutions_chirho)
    }

    fn is_satisfiable_chirho(&self, domains_chirho: &DomainVecChirho, constraints_chirho: &[ConstraintChirho]) -> (r: bool)
        ensures
            r == exists|x: Seq<u64>| #[trigger] is_solution(domains_chirho@, constraints_chirho@, x),
    {
        let sols = self.solve_chirho(domains_chirho, constraints_chirho, 1);
        proof {
            if sols.len() > 0 {
                assert(is_solution(domains_chirho@, constraints_chirho@, sols@[0].assignments_chirho@));
            } else {
                assert forall|x: Seq<u64>| !#[trigger] is_solution(domains_chirho@, constraints_chirho@, x) by {
                    if is_solution(domains_chirho@, constraints_chirho@, x) {
                        assert(found(sols@, 0, x));
                    }
                }
            }
        }
        !sols.is_empty()
    }

    fn count_solutions_chirho(&self, domains_chirho: &DomainVecChirho, constraints_chirho: &[ConstraintChirho]) -> (r: u64)
        ensures
            solution_set(domains_chirho@, constraints_chirho@).finite(),
            r == solution_set(domains_chirho@, constraints_chirho@).len(),
    {
        let sols = self.solve_chirho(domains_chirho, constraints_chirho, 0);
        proof {
            let ds = domains_chirho@;
            let cs = constraints_chirho@;
            let vs = sols@.map_values(|s: SolutionChirho| s.assignments_chirho@);
            assert(vs.no_duplicates()) by {
                assert forall|i: int, j: int| 0 <= i < vs.len() && 0 <= j < vs.len() && i != j implies vs[i] != vs[j] by {
                    if i < j {
                        assert(sols@[i].assignments_chirho@ != sols@[j].assignments_chirho@);
                    } else {
                        assert(sols@[j].assignments_chirho@ != sols@[i].assignments_chirho@);
                    }
                }
            }
            vs.unique_seq_to_set();
            assert forall|x: Seq<u64>| #[trigger] vs.to_set().contains(x) == solution_set(ds, cs).contains(x) by {
                if vs.to_set().contains(x) {
                    let k = choose|k: int| 0 <= k < vs.len() && vs[k] == x;
                    assert(is_solution(ds, cs, sols@[k].assignments_chirho@));
                }
                if solution_set(ds, cs).contains(x) {
                    assert(found(sols@, 0, x));
                    let k = choose|k: int| 0 <= k < sols@.len() && #[trigger] sols@[k].assignments_chirho@ == x;
                    assert(vs[k] == x);
                }
            }
            assert(vs.to_set() =~= solution_set(ds, cs));
        }
        sols.len() as u64
    }

    fn info_chirho(&self) -> (r: BackendInfoChirho)
        ensures
            r.name_chirho@ == "cpu"@,
            r.version_chirho@ == "0.1.0"@,
            r.throughput_estimate_chirho == 500_000,
            !r.batch_accelerated_chirho,
    {
        BackendInfoChirho {
            name_chirho: "cpu",
            version_chirho: String::from_str("0.1.0"),
            throughput_estimate_chirho: 500_000,
            batch_accelerated_chirho: false,
        }
    }
}

/// Settings of the FPGA backend's HBM batch path.
#[derive(Debug, Clone, Copy)]
pub struct HbmConfigChirho {
    /// Smallest batch sent through HBM (smaller ones use the register path).
    pub min_batch_size_chirho: usize,
    /// Largest batch per HBM transfer.
    pub max_batch_size_chirho: usize,
    /// HBM offset of the input data.
    pub input_offset_chirho: u64,
    /// HBM offset of the output data.
    pub output_offset_chirho: u64,
}

impl Default for HbmConfigChirho {
    fn default() -> (r: Self)
        ensures
            r.min_batch_size_chirho == 100,
            r.max_batch_size_chirho == 1_000_000,
            r.input_offset_chirho == 0,
            r.output_offset_chirho == 0x0100_0000,
    {
        Self {
            min_batch_size_chirho: 100,
            max_batch_size_chirho: 1_000_000,
            input_offset_chirho: 0x0000_0000,
            output_offset_chirho: 0x0100_0000,
        }
    }
}

/// How a backend is chosen.
#[derive(Debug, Clone)]
pub struct BackendConfigChirho {
    prefer_fpga_chirho: bool,
    check_env_chirho: bool,
    fpga_slot_chirho: u32,
}

impl BackendConfigChirho {
    /// Try the FPGA if one is available.
    pub closed spec fn prefers_fpga(&self) -> bool {
        self.prefer_fpga_chirho
    }

    /// Consult the `FPGA_ENABLED_CHIRHO` environment variable.
    pub closed spec fn checks_env(&self) -> bool {
        self.check_env_chirho
    }

    /// FPGA slot number.
    pub closed spec fn slot(&self) -> u32 {
        self.fpga_slot_chirho
    }

    /// CPU only, no environment check.
    pub fn new_chirho() -> (r: Self)
        ensures
            !r.prefers_fpga(),
            !r.checks_env(),
            r.slot() == 0,
    {
        Self { prefer_fpga_chirho: false, check_env_chirho: false, fpga_slot_chirho: 0 }
    }

    /// Check the environment, then try the FPGA, falling back to the CPU.
    pub fn auto_chirho() -> (r: Self)
        ensures
            r.prefers_fpga(),
            r.checks_env(),
            r.slot() == 0,
    {
        Self { prefer_fpga_chirho: true, check_env_chirho: true, fpga_slot_chirho: 0 }
    }

    /// CPU only.
    pub fn cpu_only_chirho() -> (r: Self)
        ensures
            !r.prefers_fpga(),
            !r.checks_env(),
            r.slot() == 0,
    {
        Self { prefer_fpga_chirho: false, check_env_chirho: false, fpga_slot_chirho: 0 }
    }

    /// Set the FPGA preference.
    pub fn prefer_fpga_chirho(self, prefer_chirho: bool) -> (r: Self)
        ensures
            r.prefers_fpga() == prefer_chirho,
            r.checks_env() == self.checks_env(),
            r.slot() == self.slot(),
    {
        Self { prefer_fpga_chirho: prefer_chirho, ..self }
    }

    /// Set whether the environment variable is consulted.
    pub fn check_env_chirho(self, check_chirho: bool) -> (r: Self)
        ensures
            r.checks_env() == check_chirho,
            r.prefers_fpga() == self.prefers_fpga(),
            r.slot() == self.slot(),
    {
        Self { check_env_chirho: check_chirho, ..self }
    }

    /// Set the FPGA slot number.
    pub fn fpga_slot_chirho(self, slot_chirho: u32) -> (r: Self)
        ensures
            r.slot() == slot_chirho,
            r.prefers_fpga() == self.prefers_fpga(),
            r.checks_env() == self.checks_env(),
    {
        Self { fpga_slot_chirho: slot_chirho, ..self }
    }

    /// The FPGA slot this configuration names.
    pub fn slot_chirho(&self) -> (r: u32)
        ensures
            r == self.slot(),
    {
        self.fpga_slot_chirho
    }

    /// Whether building should try the FPGA, given whether the environment
    /// variable is set.
    pub fn should_try_fpga_chirho(&self, env_enabled_chirho: bool) -> (r: bool)
        ensures
            r == (self.prefers_fpga() || (self.checks_env() && env_enabled_chirho)),
    {
        self.prefer_fpga_chirho || (self.check_env_chirho && env_enabled_chirho)
    }
}

impl Default for BackendConfigChirho {
    fn default() -> (r: Self)
        ensures
            !r.prefers_fpga(),
            !r.checks_env(),
            r.slot() == 0,
    {
        Self::new_chirho()
    }
}

} // verus!
