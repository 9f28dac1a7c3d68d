//! Symbolic domains over `i64`: ranges, residues (intersected by the Chinese
//! remainder theorem), disequalities, type tags and conjunctions, decided
//! without enumerating their values.

use vstd::prelude::*;
use vstd::arithmetic::div_mod::{lemma_fundamental_div_mod, lemma_fundamental_div_mod_converse, lemma_mod_bound};
use crate::bits::{bit64, lemma_or_bits, lemma_shl_bits, lemma_zero_iff_no_bits, lemma_low_mask_bits, low_mask64};
use crate::hardware::BitVec64Chirho;

verus! {

/// Type tags for classifying terms.
#[derive(Debug, Clone, Copy, PartialEq, Eq, Structural)]
pub enum TypeTagChirho {
    IntChirho,
    BoolChirho,
    SymbolChirho,
    ListChirho,
    PairChirho,
    NilChirho,
}

/// A symbolic constraint on a value.
#[derive(Debug)]
pub enum SymbolicConstraintChirho {
    /// Every value.
    AnyChirho,
    /// No value.
    NoneChirho,
    /// Exactly this value.
    ExactChirho(i64),
    /// `lo <= x <= hi`.
    RangeChirho { lo_chirho: i64, hi_chirho: i64 },
    /// `x ≡ remainder (mod modulus)`.
    ModularChirho { remainder_chirho: i64, modulus_chirho: i64 },
    /// `x != value`.
    NotEqualChirho(i64),
    /// Every constraint of the list.
    AndChirho(Vec<SymbolicConstraintChirho>),
    /// A type tag (no restriction on integer values).
    TypeChirho(TypeTagChirho),
}

/// `v` meets the constraint.
pub open spec fn sat(c: SymbolicConstraintChirho, v: i64) -> bool
    decreases c,
{
    match c {
        SymbolicConstraintChirho::AnyChirho => true,
        SymbolicConstraintChirho::NoneChirho => false,
        SymbolicConstraintChirho::ExactChirho(x) => x == v,
        SymbolicConstraintChirho::RangeChirho { lo_chirho, hi_chirho } => lo_chirho <= v <= hi_chirho,
        SymbolicConstraintChirho::ModularChirho { remainder_chirho, modulus_chirho } => v % modulus_chirho == remainder_chirho,
        SymbolicConstraintChirho::NotEqualChirho(x) => x != v,
        SymbolicConstraintChirho::AndChirho(cs) => forall|i: int| 0 <= i < cs.len() ==> sat(#[trigger] cs@[i], v),
        SymbolicConstraintChirho::TypeChirho(_) => true,
    }
}

/// Residues are normalised with a positive modulus.
pub open spec fn wf(c: SymbolicConstraintChirho) -> bool
    decreases c,
{
    match c {
        SymbolicConstraintChirho::ModularChirho { remainder_chirho, modulus_chirho } => 0 < modulus_chirho && 0 <= remainder_chirho < modulus_chirho,
        SymbolicConstraintChirho::AndChirho(cs) => forall|i: int| 0 <= i < cs.len() ==> wf(#[trigger] cs@[i]),
        _ => true,
    }
}

/// Structural equality (the lists of conjunctions compared element by element).
pub open spec fn same(a: SymbolicConstraintChirho, b: SymbolicConstraintChirho) -> bool
    decreases a,
{
    match a {
        SymbolicConstraintChirho::AndChirho(xs) => match b {
            SymbolicConstraintChirho::AndChirho(ys) => xs.len() == ys.len() && forall|i: int|
                0 <= i < xs.len() ==> same(#[trigger] xs@[i], ys@[i]),
            _ => false,
        },
        _ => !(b is AndChirho) && a == b,
    }
}

/// Structurally equal constraints hold of the same values and are equally well formed.
pub proof fn lemma_same_sat(a: SymbolicConstraintChirho, b: SymbolicConstraintChirho)
    requires
        same(a, b),
    ensures
        forall|v: i64| #[trigger] sat(a, v) == sat(b, v),
        wf(a) == wf(b),
    decreases a,
{
    if let SymbolicConstraintChirho::AndChirho(xs) = a {
        if let SymbolicConstraintChirho::AndChirho(ys) = b {
            assert forall|i: int| 0 <= i < xs.len() implies (forall|v: i64| #[trigger] sat(xs@[i], v) == sat(ys@[i], v))
                && wf(xs@[i]) == wf(ys@[i]) by {
                assert(same(xs@[i], ys@[i]));
                vstd::std_specs::vec::axiom_vec_index_decreases(xs, i);
                lemma_same_sat(xs@[i], ys@[i]);
            }
            assert forall|v: i64| #[trigger] sat(a, v) == sat(b, v) by {
                if sat(a, v) {
                    assert forall|i: int| 0 <= i < ys.len() implies sat(#[trigger] ys@[i], v) by {
                        assert(sat(xs@[i], v));
                    }
                }
                if sat(b, v) {
                    assert forall|i: int| 0 <= i < xs.len() implies sat(#[trigger] xs@[i], v) by {
                        assert(sat(ys@[i], v));
                    }
                }
            }
            if wf(a) {
                assert forall|i: int| 0 <= i < ys.len() implies wf(#[trigger] ys@[i]) by {
                    assert(wf(xs@[i]));
                }
            }
            if wf(b) {
                assert forall|i: int| 0 <= i < xs.len() implies wf(#[trigger] xs@[i]) by {
                    assert(wf(ys@[i]));
                }
            }
        }
    }
}

/// `d` times `k`.
pub open spec fn scaled(d: int, k: int) -> int {
    d * k
}

/// `d` divides `n`.
pub open spec fn divides(d: int, n: int) -> bool {
    exists|k: int| n == #[trigger] scaled(d, k)
}

/// Extended Euclid on naturals: `(g, x, y)` with `g == a * x + b * y`.
pub open spec fn egcd(a: nat, b: nat) -> (int, int, int)
    decreases b,
{
    if b == 0 {
        (a as int, 1, 0)
    } else {
        let t = egcd(b, a % b);
        (t.0, t.2, t.1 - (a / b) as int * t.2)
    }
}

/// The value fits in an `i64`.
pub open spec fn in_i64(x: int) -> bool {
    i64::MIN <= x <= i64::MAX
}

/// Every intermediate value of the extended Euclid computation fits in an `i64`.
pub open spec fn egcd_fits(a: nat, b: nat) -> bool
    decreases b,
{
    if b == 0 {
        true
    } else {
        let t = egcd(b, a % b);
        &&& egcd_fits(b, a % b)
        &&& in_i64((a / b) as int * t.2)
        &&& in_i64(t.1 - (a / b) as int * t.2)
    }
}

/// The combined residue of `x ≡ r1 (mod m1)` and `x ≡ r2 (mod m2)`, when there is one.
pub open spec fn crt(r1: int, m1: int, r2: int, m2: int) -> Option<(int, int)> {
    let t = egcd(m1 as nat, m2 as nat);
    let g = t.0;
    if (r2 - r1) % g != 0 {
        None
    } else {
        let l = (m1 / g) * m2;
        Some(((r1 + m1 * ((r2 - r1) / g) * t.1) % l, l))
    }
}

/// Every intermediate value of the combination fits in an `i64`.
pub open spec fn crt_fits(r1: int, m1: int, r2: int, m2: int) -> bool {
    let t = egcd(m1 as nat, m2 as nat);
    let g = t.0;
    &&& egcd_fits(m1 as nat, m2 as nat)
    &&& ((r2 - r1) % g == 0 ==> {
        let k = (r2 - r1) / g;
        &&& in_i64((m1 / g) * m2)
        &&& in_i64(m1 * k)
        &&& in_i64(m1 * k * t.1)
        &&& in_i64(r1 + m1 * k * t.1)
    })
}

/// The extended Euclid result is a common divisor, written as a combination.
pub proof fn lemma_egcd(a: nat, b: nat)
    ensures
        egcd(a, b).0 == a * egcd(a, b).1 + b * egcd(a, b).2,
        egcd(a, b).0 >= 0,
        a > 0 || b > 0 ==> egcd(a, b).0 > 0,
        divides(egcd(a, b).0, a as int),
        divides(egcd(a, b).0, b as int),
    decreases b,
{
    let t = egcd(a, b);
    if b == 0 {
        assert(a as int == scaled(t.0, 1));
        assert(0 == scaled(t.0, 0));
    } else {
        let s = egcd(b, a % b);
        lemma_egcd(b, a % b);
        let q = (a / b) as int;
        let r = (a % b) as int;
        lemma_fundamental_div_mod(a as int, b as int);
        assert(a == b * q + r);
        assert(t.0 == a * s.2 + b * (s.1 - q * s.2)) by (nonlinear_arith)
            requires
                t.0 == s.0,
                s.0 == b * s.1 + r * s.2,
                a == b * q + r,
        ;
        let k1 = choose|k: int| b as int == scaled(s.0, k);
        let k2 = choose|k: int| r == scaled(s.0, k);
        assert(a as int == s.0 * (k1 * q + k2)) by (nonlinear_arith)
            requires
                b as int == s.0 * k1,
                r == s.0 * k2,
                a == b * q + r,
        ;
        assert(b as int == scaled(s.0, k1));
        assert(a as int == scaled(s.0, k1 * q + k2));
    }
}

/// For a normalised residue, `v % m == r` says that `m` divides `v - r`.
pub proof fn lemma_mod_divides(v: int, m: int, r: int)
    requires
        m > 0,
        0 <= r < m,
    ensures
        (v % m == r) == divides(m, v - r),
{
    lemma_fundamental_div_mod(v, m);
    lemma_mod_bound(v, m);
    if v % m == r {
        assert(v - r == scaled(m, v / m));
    }
    if divides(m, v - r) {
        let k = choose|k: int| v - r == scaled(m, k);
        assert(v == k * m + r) by (nonlinear_arith)
            requires
                v - r == m * k,
        ;
        lemma_fundamental_div_mod_converse(v, m, k, r);
    }
}

/// Two residue constraints hold together exactly where their combination holds,
/// and nowhere when they have no combination.
pub proof fn lemma_crt(r1: int, m1: int, r2: int, m2: int, v: int)
    requires
        0 < m1,
        0 < m2,
        0 <= r1 < m1,
        0 <= r2 < m2,
    ensures
        crt(r1, m1, r2, m2) matches Some((r, l)) ==> 0 < l && 0 <= r < l
            && ((v % m1 == r1 && v % m2 == r2) == (v % l == r)),
        crt(r1, m1, r2, m2) is None ==> !(v % m1 == r1 && v % m2 == r2),
{
    let t = egcd(m1 as nat, m2 as nat);
    let g = t.0;
    let x = t.1;
    let y = t.2;
    lemma_egcd(m1 as nat, m2 as nat);
    let a1 = choose|k: int| m1 == scaled(g, k);
    let a2 = choose|k: int| m2 == scaled(g, k);
    assert(m1 == g * a1 && m2 == g * a2);
    lemma_mod_divides(v, m1, r1);
    lemma_mod_divides(v, m2, r2);
    lemma_mod_divides(r2 - r1, g, 0);
    if (r2 - r1) % g != 0 {
        if v % m1 == r1 && v % m2 == r2 {
            let p = choose|k: int| v - r1 == scaled(m1, k);
            let q = choose|k: int| v - r2 == scaled(m2, k);
            assert(r2 - r1 == g * (a1 * p - a2 * q)) by (nonlinear_arith)
                requires
                    v - r1 == m1 * p,
                    v - r2 == m2 * q,
                    m1 == g * a1,
                    m2 == g * a2,
            ;
            assert(r2 - r1 == scaled(g, a1 * p - a2 * q));
        }
    } else {
        let kk = choose|k: int| r2 - r1 == scaled(g, k);
        lemma_fundamental_div_mod_converse(r2 - r1, g, kk, 0);
        let k = (r2 - r1) / g;
        assert(k == kk);
        lemma_fundamental_div_mod_converse(m1, g, a1, 0);
        assert(m1 / g == a1);
        let l = (m1 / g) * m2;
        assert(l == a1 * m2);
        assert(l > 0) by (nonlinear_arith)
            requires
                l == a1 * m2,
                m1 == g * a1,
                g > 0,
                m1 > 0,
                m2 > 0,
        ;
        assert(g * (a1 * x + a2 * y) == g * 1) by (nonlinear_arith)
            requires
                g == m1 * x + m2 * y,
                m1 == g * a1,
                m2 == g * a2,
        ;
        assert(a1 * x + a2 * y == 1) by (nonlinear_arith)
            requires
                g * (a1 * x + a2 * y) == g * 1,
                g > 0,
        ;
        let s0 = r1 + m1 * k * x;
        let r = s0 % l;
        lemma_mod_bound(s0, l);
        lemma_mod_divides(v, l, r);
        lemma_mod_divides(s0, l, r);
        // s0 meets both residues.
        assert(s0 - r1 == m1 * (k * x)) by (nonlinear_arith)
            requires
                s0 == r1 + m1 * k * x,
        ;
        assert(s0 - r2 == m2 * (-(y * k))) by (nonlinear_arith)
            requires
                s0 == r1 + m1 * k * x,
                r2 - r1 == g * k,
                g == m1 * x + m2 * y,
        ;
        assert(s0 - r1 == scaled(m1, k * x));
        assert(s0 - r2 == scaled(m2, -(y * k)));
        let e = choose|e: int| s0 - r == scaled(l, e);
        assert(s0 - r == l * e);
        if v % m1 == r1 && v % m2 == r2 {
            let p = choose|kp: int| v - r1 == scaled(m1, kp);
            let q = choose|kq: int| v - r2 == scaled(m2, kq);
            let d = v - s0;
            assert(d == m1 * (p - k * x)) by (nonlinear_arith)
                requires
                    v - r1 == m1 * p,
                    s0 - r1 == m1 * (k * x),
                    d == v - s0,
            ;
            assert(d == m2 * (q + y * k)) by (nonlinear_arith)
                requires
                    v - r2 == m2 * q,
                    s0 - r2 == m2 * (-(y * k)),
                    d == v - s0,
            ;
            let xx = x * (q + y * k);
            let yy = y * (p - k * x);
            assert(a2 * m1 == l) by (nonlinear_arith)
                requires
                    m1 == g * a1,
                    m2 == g * a2,
                    l == a1 * m2,
            ;
            assert(a1 * x * d == xx * l) by (nonlinear_arith)
                requires
                    d == m2 * (q + y * k),
                    xx == x * (q + y * k),
                    l == a1 * m2,
            ;
            assert(a2 * y * d == yy * l) by (nonlinear_arith)
                requires
                    d == m1 * (p - k * x),
                    yy == y * (p - k * x),
                    a2 * m1 == l,
            ;
            assert(d == a1 * x * d + a2 * y * d) by (nonlinear_arith)
                requires
                    a1 * x + a2 * y == 1,
            ;
            assert(d == l * (xx + yy)) by (nonlinear_arith)
                requires
                    d == a1 * x * d + a2 * y * d,
                    a1 * x * d == xx * l,
                    a2 * y * d == yy * l,
            ;
            assert(v - r == l * (x * (q + y * k) + y * (p - k * x) + e)) by (nonlinear_arith)
                requires
                    d == l * (xx + yy),
                    xx == x * (q + y * k),
                    yy == y * (p - k * x),
                    d == v - s0,
                    s0 - r == l * e,
            ;
            assert(v - r == scaled(l, x * (q + y * k) + y * (p - k * x) + e));
        }
        if v % l == r {
            let w = choose|kw: int| v - r == scaled(l, kw);
            assert(v - r1 == m1 * (a2 * (w - e) + k * x)) by (nonlinear_arith)
                requires
                    v - r == l * w,
                    s0 - r == l * e,
                    s0 - r1 == m1 * (k * x),
                    l == a1 * m2,
                    m1 == g * a1,
                    m2 == g * a2,
            ;
            assert(v - r2 == m2 * (a1 * (w - e) - y * k)) by (nonlinear_arith)
                requires
                    v - r == l * w,
                    s0 - r == l * e,
                    s0 - r2 == m2 * (-(y * k)),
                    l == a1 * m2,
            ;
            assert(v - r1 == scaled(m1, a2 * (w - e) + k * x));
            assert(v - r2 == scaled(m2, a1 * (w - e) - y * k));
        }
    }
}

/// Extended Euclid: `(g, x, y)` with `g == a * x + b * y`.
fn extended_gcd_chirho(a: i64, b: i64) -> (r: (i64, i64, i64))
    requires
        a >= 0,
        b >= 0,
        egcd_fits(a as nat, b as nat),
    ensures
        r.0 == egcd(a as nat, b as nat).0,
        r.1 == egcd(a as nat, b as nat).1,
        r.2 == egcd(a as nat, b as nat).2,
    decreases b,
{
    if b == 0 {
        (a, 1, 0)
    } else {
        let rem = match a.checked_rem(b) {
            Some(v) => v,
            None => 0,
        };
        let quot = match a.checked_div(b) {
            Some(v) => v,
            None => 0,
        };
        proof {
            lemma_mod_bound(a as int, b as int);
            lemma_fundamental_div_mod_converse(0, b as int, 0, 0);
            assert(rem as int == (a as int) % (b as int));
            assert(quot as int == (a as int) / (b as int));
            assert(rem as nat == (a as nat) % (b as nat));
            assert(quot as nat == (a as nat) / (b as nat));
            assert(egcd_fits(b as nat, rem as nat));
        }
        let (g, x, y) = extended_gcd_chirho(b, rem);
        proof {
            let t = egcd(b as nat, (a as nat) % (b as nat));
            assert(in_i64(((a as nat) / (b as nat)) as int * t.2));
            assert(quot * y == ((a as nat) / (b as nat)) as int * t.2);
        }
        (g, y, x - quot * y)
    }
}

/// The combined residue of two residue constraints, `None` when they conflict.
fn chinese_remainder_chirho(r1: i64, m1: i64, r2: i64, m2: i64) -> (r: Option<(i64, i64)>)
    requires
        0 < m1,
        0 < m2,
        0 <= r1 < m1,
        0 <= r2 < m2,
        crt_fits(r1 as int, m1 as int, r2 as int, m2 as int),
    ensures
        match crt(r1 as int, m1 as int, r2 as int, m2 as int) {
            Some((s, l)) => r == Some((s as i64, l as i64)),
            None => r is None,
        },
{
    proof {
        lemma_egcd(m1 as nat, m2 as nat);
    }
    let (g, x, _y) = extended_gcd_chirho(m1, m2);
    let diff = r2 - r1;
    proof {
        lemma_mod_divides(diff as int, g as int, 0);
        let a1 = choose|k: int| m1 == scaled(g as int, k);
        assert(g <= m1) by (nonlinear_arith)
            requires
                m1 == g * a1,
                g > 0,
                m1 > 0,
        ;
    }
    let rem = match diff.checked_rem(g) {
        Some(v) => v,
        None => 1,
    };
    proof {
        if diff < 0 {
            lemma_mod_divides((-diff) as int, g as int, 0);
            if divides(g as int, diff as int) {
                let k = choose|k: int| diff == scaled(g as int, k);
                assert(-diff == scaled(g as int, -k)) by (nonlinear_arith)
                    requires
                        diff == g * k,
                ;
            }
            if divides(g as int, -diff) {
                let k = choose|k: int| -diff == scaled(g as int, k);
                assert(diff == scaled(g as int, -k)) by (nonlinear_arith)
                    requires
                        -diff == g * k,
                ;
            }
        }
    }
    if rem != 0 {
        return None;
    }
    let k = match diff.checked_div_euclid(g) {
        Some(v) => v,
        None => 0,
    };
    let a1 = match m1.checked_div_euclid(g) {
        Some(v) => v,
        None => 0,
    };
    proof {
        if diff == 0 {
            assert(0 == scaled(g as int, 0));
        }
        assert(divides(g as int, diff as int));
        let kk = choose|kk: int| diff == scaled(g as int, kk);
        lemma_fundamental_div_mod_converse(diff as int, g as int, kk, 0);
        assert(-(diff as int) <= kk <= diff || diff <= kk <= -(diff as int)) by (nonlinear_arith)
            requires
                diff == g * kk,
                g >= 1,
        ;
        assert((diff as int) % (g as int) == 0);
        assert(k as int == (r2 - r1) / (g as int));
        assert(a1 as int == (m1 as int) / (g as int));
    }
    let lcm = a1 * m2;
    let step = m1 * k;
    let big = step * x;
    let total = r1 + big;
    proof {
        lemma_crt(r1 as int, m1 as int, r2 as int, m2 as int, 0);
    }
    let solution = match total.checked_rem_euclid(lcm) {
        Some(v) => v,
        None => 0,
    };
    Some((solution, lcm))
}

/// A domain given by one symbolic constraint.
#[derive(Debug)]
pub struct SymbolicDomainChirho {
    pub constraint_chirho: SymbolicConstraintChirho,
}

/// The constraint `intersect_chirho` builds from `a` and `b`, case by case.
pub open spec fn intersect_shape(a: SymbolicConstraintChirho, b: SymbolicConstraintChirho, r: SymbolicConstraintChirho) -> bool {
    if a is AnyChirho {
        same(r, b)
    } else if b is AnyChirho {
        same(r, a)
    } else if a is NoneChirho || b is NoneChirho {
        r is NoneChirho
    } else if a is ExactChirho && b is ExactChirho {
        if a->ExactChirho_0 == b->ExactChirho_0 { r == a } else { r is NoneChirho }
    } else if a is ExactChirho {
        if sat(b, a->ExactChirho_0) { r == a } else { r is NoneChirho }
    } else if b is ExactChirho {
        if sat(a, b->ExactChirho_0) { r == b } else { r is NoneChirho }
    } else if a is RangeChirho && b is RangeChirho {
        let lo = if a->lo_chirho > b->lo_chirho { a->lo_chirho } else { b->lo_chirho };
        let hi = if a->hi_chirho < b->hi_chirho { a->hi_chirho } else { b->hi_chirho };
        if lo > hi {
            r is NoneChirho
        } else if lo == hi {
            r == SymbolicConstraintChirho::ExactChirho(lo)
        } else {
            r == SymbolicConstraintChirho::RangeChirho { lo_chirho: lo, hi_chirho: hi }
        }
    } else if a is ModularChirho && b is ModularChirho {
        match crt(a->remainder_chirho as int, a->modulus_chirho as int, b->remainder_chirho as int, b->modulus_chirho as int) {
            Some((s, l)) => r == SymbolicConstraintChirho::ModularChirho { remainder_chirho: s as i64, modulus_chirho: l as i64 },
            None => r is NoneChirho,
        }
    } else if a is RangeChirho && b is ModularChirho {
        r matches SymbolicConstraintChirho::AndChirho(cs) && cs.len() == 2 && cs@[0] == a && cs@[1] == b
    } else if a is ModularChirho && b is RangeChirho {
        r matches SymbolicConstraintChirho::AndChirho(cs) && cs.len() == 2 && cs@[0] == b && cs@[1] == a
    } else if a is NotEqualChirho {
        r matches SymbolicConstraintChirho::AndChirho(cs) && cs.len() == 2 && same(cs@[0], b) && cs@[1] == a
    } else if b is NotEqualChirho {
        r matches SymbolicConstraintChirho::AndChirho(cs) && cs.len() == 2 && same(cs@[0], a) && cs@[1] == b
    } else if a is AndChirho {
        r matches SymbolicConstraintChirho::AndChirho(cs) && cs.len() == a->AndChirho_0.len() + 1
            && (forall|i: int| 0 <= i < a->AndChirho_0.len() ==> same(#[trigger] cs@[i], a->AndChirho_0@[i]))
            && same(cs@[cs.len() - 1], b)
    } else if b is AndChirho {
        r matches SymbolicConstraintChirho::AndChirho(cs) && cs.len() == b->AndChirho_0.len() + 1
            && (forall|i: int| 0 <= i < b->AndChirho_0.len() ==> same(#[trigger] cs@[i], b->AndChirho_0@[i]))
            && same(cs@[cs.len() - 1], a)
    } else if a is TypeChirho && b is TypeChirho {
        if a->TypeChirho_0 == b->TypeChirho_0 { r == a } else { r is NoneChirho }
    } else if a is TypeChirho {
        r matches SymbolicConstraintChirho::AndChirho(cs) && cs.len() == 2 && cs@[0] == a && same(cs@[1], b)
    } else {
        r matches SymbolicConstraintChirho::AndChirho(cs) && cs.len() == 2 && cs@[0] == b && same(cs@[1], a)
    }
}

/// The residue combination of two residue constraints fits in an `i64`
/// (nothing to check for other pairs).
pub open spec fn intersect_fits(a: SymbolicConstraintChirho, b: SymbolicConstraintChirho) -> bool {
    (a is ModularChirho && b is ModularChirho) ==> crt_fits(a->remainder_chirho as int, a->modulus_chirho as int,
        b->remainder_chirho as int, b->modulus_chirho as int)
}

/// A range inside `0..64`.
pub open spec fn small_range(c: SymbolicConstraintChirho) -> bool {
    c matches SymbolicConstraintChirho::RangeChirho { lo_chirho, hi_chirho } && lo_chirho >= 0 && hi_chirho < 64
}

/// Checking `v` against `c` reaches no residue with modulus zero, nor the
/// one overflowing case `i64::MIN` modulo `-1` (a conjunction stops at its
/// first unmet member).
pub open spec fn checkable(c: SymbolicConstraintChirho, v: i64) -> bool
    decreases c,
{
    match c {
        SymbolicConstraintChirho::ModularChirho { modulus_chirho, .. } => modulus_chirho != 0 && !(v == i64::MIN
            && modulus_chirho == -1),
        SymbolicConstraintChirho::AndChirho(cs) => forall|i: int|
            0 <= i < cs.len() && (forall|j: int| 0 <= j < i ==> sat(#[trigger] cs@[j], v)) ==> checkable(
                #[trigger] cs@[i],
                v,
            ),
        _ => true,
    }
}

/// A well-formed constraint can be checked against any value.
pub proof fn lemma_wf_checkable(c: SymbolicConstraintChirho, v: i64)
    requires
        wf(c),
    ensures
        checkable(c, v),
    decreases c,
{
    if let SymbolicConstraintChirho::AndChirho(cs) = c {
        assert forall|i: int| 0 <= i < cs.len() && (forall|j: int| 0 <= j < i ==> sat(#[trigger] cs@[j], v)) implies checkable(
            #[trigger] cs@[i],
            v,
        ) by {
            vstd::std_specs::vec::axiom_vec_index_decreases(cs, i);
            lemma_wf_checkable(cs@[i], v);
        }
    }
}

fn sat_exec_chirho(c: &SymbolicConstraintChirho, v: i64) -> (r: bool)
    requires
        checkable(*c, v),
    ensures
        r == sat(*c, v),
    decreases c, 1nat,
{
    match c {
        SymbolicConstraintChirho::AnyChirho => true,
        SymbolicConstraintChirho::NoneChirho => false,
        SymbolicConstraintChirho::ExactChirho(x) => *x == v,
        SymbolicConstraintChirho::RangeChirho { lo_chirho, hi_chirho } => v >= *lo_chirho && v <= *hi_chirho,
        SymbolicConstraintChirho::ModularChirho { remainder_chirho, modulus_chirho } => {
            match v.checked_rem_euclid(*modulus_chirho) {
                Some(m) => m == *remainder_chirho,
                None => false,
            }
        },
        SymbolicConstraintChirho::NotEqualChirho(x) => *x != v,
        SymbolicConstraintChirho::AndChirho(cs) => sat_all_exec_chirho(cs, v),
        SymbolicConstraintChirho::TypeChirho(_) => true,
    }
}

fn sat_all_exec_chirho(cs: &Vec<SymbolicConstraintChirho>, v: i64) -> (r: bool)
    requires
        forall|i: int|
            0 <= i < cs.len() && (forall|j: int| 0 <= j < i ==> sat(#[trigger] cs@[j], v)) ==> checkable(
                #[trigger] cs@[i],
                v,
            ),
    ensures
        r == forall|i: int| 0 <= i < cs.len() ==> sat(#[trigger] cs@[i], v),
    decreases cs, 0nat,
{
    let mut i: usize = 0;
    while i < cs.len()
        invariant
            i <= cs.len(),
            forall|k: int|
                0 <= k < cs.len() && (forall|j: int| 0 <= j < k ==> sat(#[trigger] cs@[j], v)) ==> checkable(
                    #[trigger] cs@[k],
                    v,
                ),
            forall|k: int| 0 <= k < i ==> sat(#[trigger] cs@[k], v),
        decreases cs.len() - i,
    {
        proof {
            vstd::std_specs::vec::axiom_vec_index_decreases(*cs, i as int);
        }
        if !sat_exec_chirho(&cs[i], v) {
            return false;
        }
        i = i + 1;
    }
    true
}

pub(crate) fn copy_constraint_chirho(c: &SymbolicConstraintChirho) -> (r: SymbolicConstraintChirho)
    ensures
        same(r, *c),
    decreases c, 1nat,
{
    match c {
        SymbolicConstraintChirho::AnyChirho => SymbolicConstraintChirho::AnyChirho,
        SymbolicConstraintChirho::NoneChirho => SymbolicConstraintChirho::NoneChirho,
        SymbolicConstraintChirho::ExactChirho(x) => SymbolicConstraintChirho::ExactChirho(*x),
        SymbolicConstraintChirho::RangeChirho { lo_chirho, hi_chirho } => SymbolicConstraintChirho::RangeChirho { lo_chirho: *lo_chirho, hi_chirho: *hi_chirho },
        SymbolicConstraintChirho::ModularChirho { remainder_chirho, modulus_chirho } => SymbolicConstraintChirho::ModularChirho {
            remainder_chirho: *remainder_chirho,
            modulus_chirho: *modulus_chirho,
        },
        SymbolicConstraintChirho::NotEqualChirho(x) => SymbolicConstraintChirho::NotEqualChirho(*x),
        SymbolicConstraintChirho::AndChirho(cs) => SymbolicConstraintChirho::AndChirho(copy_list_chirho(cs)),
        SymbolicConstraintChirho::TypeChirho(t) => SymbolicConstraintChirho::TypeChirho(*t),
    }
}

fn copy_list_chirho(cs: &Vec<SymbolicConstraintChirho>) -> (r: Vec<SymbolicConstraintChirho>)
    ensures
        r.len() == cs.len(),
        forall|i: int| 0 <= i < cs.len() ==> same(#[trigger] r@[i], cs@[i]),
    decreases cs, 0nat,
{
    let mut out: Vec<SymbolicConstraintChirho> = Vec::new();
    let mut i: usize = 0;
    while i < cs.len()
        invariant
            i <= cs.len(),
            out.len() == i,
            forall|k: int| 0 <= k < i ==> same(#[trigger] out@[k], cs@[k]),
        decreases cs.len() - i,
    {
        proof {
            vstd::std_specs::vec::axiom_vec_index_decreases(*cs, i as int);
        }
        out.push(copy_constraint_chirho(&cs[i]));
        i = i + 1;
    }
    out
}

impl SymbolicDomainChirho {
    /// Every value.
    pub fn any_chirho() -> (r: Self)
        ensures
            (r.constraint_chirho is AnyChirho),
    {
        Self { constraint_chirho: SymbolicConstraintChirho::AnyChirho }
    }

    /// No value.
    pub fn none_chirho() -> (r: Self)
        ensures
            (r.constraint_chirho is NoneChirho),
    {
        Self { constraint_chirho: SymbolicConstraintChirho::NoneChirho }
    }

    /// Exactly `value`.
    pub fn exact_chirho(value_chirho: i64) -> (r: Self)
        ensures
            r.constraint_chirho == SymbolicConstraintChirho::ExactChirho(value_chirho),
    {
        Self { constraint_chirho: SymbolicConstraintChirho::ExactChirho(value_chirho) }
    }

    /// `lo..=hi` (no value when inverted, one value when `lo == hi`).
    pub fn range_chirho(lo_chirho: i64, hi_chirho: i64) -> (r: Self)
        ensures
            wf(r.constraint_chirho),
            lo_chirho > hi_chirho ==> (r.constraint_chirho is NoneChirho),
            lo_chirho == hi_chirho ==> r.constraint_chirho == SymbolicConstraintChirho::ExactChirho(lo_chirho),
            lo_chirho < hi_chirho ==> r.constraint_chirho == (SymbolicConstraintChirho::RangeChirho { lo_chirho, hi_chirho }),
    {
        if lo_chirho > hi_chirho {
            Self::none_chirho()
        } else if lo_chirho == hi_chirho {
            Self::exact_chirho(lo_chirho)
        } else {
            Self { constraint_chirho: SymbolicConstraintChirho::RangeChirho { lo_chirho, hi_chirho } }
        }
    }

    /// `x ≡ remainder (mod modulus)`, the remainder normalised into `0..modulus`.
    pub fn modular_chirho(remainder_chirho: i64, modulus_chirho: i64) -> (r: Self)
        requires
            modulus_chirho > 0,
        ensures
            wf(r.constraint_chirho),
            r.constraint_chirho == (SymbolicConstraintChirho::ModularChirho {
                remainder_chirho: (remainder_chirho % modulus_chirho) as i64,
                modulus_chirho,
            }),
    {
        let r_chirho = match remainder_chirho.checked_rem_euclid(modulus_chirho) {
            Some(v) => v,
            None => 0,
        };
        proof {
            lemma_mod_bound(remainder_chirho as int, modulus_chirho as int);
        }
        Self { constraint_chirho: SymbolicConstraintChirho::ModularChirho { remainder_chirho: r_chirho, modulus_chirho } }
    }

    /// Does `value` meet the constraint?
    pub fn contains_chirho(&self, value_chirho: i64) -> (r: bool)
        requires
            checkable(self.constraint_chirho, value_chirho),
        ensures
            r == sat(self.constraint_chirho, value_chirho),
    {
        sat_exec_chirho(&self.constraint_chirho, value_chirho)
    }

    /// Intersection, decided symbolically where the two forms allow it and kept
    /// as a conjunction otherwise.
    pub fn intersect_chirho(&self, other_chirho: &Self) -> (r: Self)
        requires
            wf(self.constraint_chirho),
            wf(other_chirho.constraint_chirho),
            intersect_fits(self.constraint_chirho, other_chirho.constraint_chirho),
        ensures
            wf(r.constraint_chirho),
            intersect_shape(self.constraint_chirho, other_chirho.constraint_chirho, r.constraint_chirho),
            !clashing_tags(self.constraint_chirho, other_chirho.constraint_chirho) ==> forall|v: i64| #[trigger] sat(r.constraint_chirho, v)
                == (sat(self.constraint_chirho, v) && sat(other_chirho.constraint_chirho, v)),
    {
        proof {
            assert forall|v: i64| #[trigger] checkable(self.constraint_chirho, v) by {
                lemma_wf_checkable(self.constraint_chirho, v);
            }
            assert forall|v: i64| #[trigger] checkable(other_chirho.constraint_chirho, v) by {
                lemma_wf_checkable(other_chirho.constraint_chirho, v);
            }
        }
        let a = &self.constraint_chirho;
        let b = &other_chirho.constraint_chirho;
        let result: SymbolicConstraintChirho = if let SymbolicConstraintChirho::AnyChirho = a {
            copy_constraint_chirho(b)
        } else if let SymbolicConstraintChirho::AnyChirho = b {
            copy_constraint_chirho(a)
        } else if matches!(a, SymbolicConstraintChirho::NoneChirho) || matches!(b, SymbolicConstraintChirho::NoneChirho) {
            SymbolicConstraintChirho::NoneChirho
        } else if let (SymbolicConstraintChirho::ExactChirho(x), SymbolicConstraintChirho::ExactChirho(y)) = (a, b) {
            if *x == *y { SymbolicConstraintChirho::ExactChirho(*x) } else { SymbolicConstraintChirho::NoneChirho }
        } else if let SymbolicConstraintChirho::ExactChirho(v) = a {
            if sat_exec_chirho(b, *v) { SymbolicConstraintChirho::ExactChirho(*v) } else { SymbolicConstraintChirho::NoneChirho }
        } else if let SymbolicConstraintChirho::ExactChirho(v) = b {
            if sat_exec_chirho(a, *v) { SymbolicConstraintChirho::ExactChirho(*v) } else { SymbolicConstraintChirho::NoneChirho }
        } else if let (
            SymbolicConstraintChirho::RangeChirho { lo_chirho: lo1, hi_chirho: hi1 },
            SymbolicConstraintChirho::RangeChirho { lo_chirho: lo2, hi_chirho: hi2 },
        ) = (a, b) {
            let lo = if *lo1 > *lo2 { *lo1 } else { *lo2 };
            let hi = if *hi1 < *hi2 { *hi1 } else { *hi2 };
            if lo > hi {
                SymbolicConstraintChirho::NoneChirho
            } else if lo == hi {
                SymbolicConstraintChirho::ExactChirho(lo)
            } else {
                SymbolicConstraintChirho::RangeChirho { lo_chirho: lo, hi_chirho: hi }
            }
        } else if let (
            SymbolicConstraintChirho::ModularChirho { remainder_chirho: r1, modulus_chirho: m1 },
            SymbolicConstraintChirho::ModularChirho { remainder_chirho: r2, modulus_chirho: m2 },
        ) = (a, b) {
            match chinese_remainder_chirho(*r1, *m1, *r2, *m2) {
                Some((rr, mm)) => SymbolicConstraintChirho::ModularChirho { remainder_chirho: rr, modulus_chirho: mm },
                None => SymbolicConstraintChirho::NoneChirho,
            }
        } else if let (
            SymbolicConstraintChirho::RangeChirho { lo_chirho, hi_chirho },
            SymbolicConstraintChirho::ModularChirho { remainder_chirho, modulus_chirho },
        ) = (a, b) {
            SymbolicConstraintChirho::AndChirho(vec![
                SymbolicConstraintChirho::RangeChirho { lo_chirho: *lo_chirho, hi_chirho: *hi_chirho },
                SymbolicConstraintChirho::ModularChirho { remainder_chirho: *remainder_chirho, modulus_chirho: *modulus_chirho },
            ])
        } else if let (
            SymbolicConstraintChirho::ModularChirho { remainder_chirho, modulus_chirho },
            SymbolicConstraintChirho::RangeChirho { lo_chirho, hi_chirho },
        ) = (a, b) {
            SymbolicConstraintChirho::AndChirho(vec![
                SymbolicConstraintChirho::RangeChirho { lo_chirho: *lo_chirho, hi_chirho: *hi_chirho },
                SymbolicConstraintChirho::ModularChirho { remainder_chirho: *remainder_chirho, modulus_chirho: *modulus_chirho },
            ])
        } else if let SymbolicConstraintChirho::NotEqualChirho(v) = a {
            SymbolicConstraintChirho::AndChirho(vec![copy_constraint_chirho(b), SymbolicConstraintChirho::NotEqualChirho(*v)])
        } else if let SymbolicConstraintChirho::NotEqualChirho(v) = b {
            SymbolicConstraintChirho::AndChirho(vec![copy_constraint_chirho(a), SymbolicConstraintChirho::NotEqualChirho(*v)])
        } else if let SymbolicConstraintChirho::AndChirho(cs) = a {
            let mut list = copy_list_chirho(cs);
            list.push(copy_constraint_chirho(b));
            SymbolicConstraintChirho::AndChirho(list)
        } else if let SymbolicConstraintChirho::AndChirho(cs) = b {
            let mut list = copy_list_chirho(cs);
            list.push(copy_constraint_chirho(a));
            SymbolicConstraintChirho::AndChirho(list)
        } else if let (SymbolicConstraintChirho::TypeChirho(t1), SymbolicConstraintChirho::TypeChirho(t2)) = (a, b) {
            if *t1 == *t2 { SymbolicConstraintChirho::TypeChirho(*t1) } else { SymbolicConstraintChirho::NoneChirho }
        } else if let SymbolicConstraintChirho::TypeChirho(t) = a {
            SymbolicConstraintChirho::AndChirho(vec![SymbolicConstraintChirho::TypeChirho(*t), copy_constraint_chirho(b)])
        } else if let SymbolicConstraintChirho::TypeChirho(t) = b {
            SymbolicConstraintChirho::AndChirho(vec![SymbolicConstraintChirho::TypeChirho(*t), copy_constraint_chirho(a)])
        } else {
            SymbolicConstraintChirho::NoneChirho
        };
        proof {
            lemma_intersect_law(*a, *b, result);
        }
        Self { constraint_chirho: result }
    }

    /// The values of the domain as a word, when they all lie in `0..64` and the
    /// form makes that plain: none, one value, a short range, or a conjunction
    /// with a range inside `0..64`.
    pub fn try_enumerate_chirho(&self, max_values_chirho: usize) -> (r: Option<BitVec64Chirho>)
        requires
            wf(self.constraint_chirho),
        ensures
            match self.constraint_chirho {
                SymbolicConstraintChirho::NoneChirho => r matches Some(b) && b.0 == 0,
                SymbolicConstraintChirho::ExactChirho(v) => if 0 <= v < 64 {
                    r matches Some(b) && forall|i: int| #[trigger] bit64(b.0, i) == (i == v)
                } else {
                    r is None
                },
                SymbolicConstraintChirho::RangeChirho { lo_chirho, hi_chirho } => if lo_chirho >= 0 && hi_chirho < 64 && hi_chirho - lo_chirho + 1 <= max_values_chirho {
                    r matches Some(b) && forall|i: int| #[trigger] bit64(b.0, i) == (lo_chirho <= i <= hi_chirho)
                } else {
                    r is None
                },
                SymbolicConstraintChirho::AndChirho(cs) => if exists|j: int| 0 <= j < cs.len() && small_range(#[trigger] cs@[j]) {
                    r matches Some(b) && forall|i: int| #[trigger] bit64(b.0, i) == (0 <= i < 64 && sat(self.constraint_chirho, i as i64))
                } else {
                    r is None
                },
                _ => r is None,
            },
            r matches Some(b) ==> forall|v: i64| #[trigger] sat(self.constraint_chirho, v) == (0 <= v < 64 && bit64(b.0, v as int)),
    {
        match &self.constraint_chirho {
            SymbolicConstraintChirho::NoneChirho => {
                proof {
                    lemma_zero_iff_no_bits(0);
                }
                Some(BitVec64Chirho::ZERO_CHIRHO())
            },
            SymbolicConstraintChirho::ExactChirho(v) => {
                if *v >= 0 && *v < 64 {
                    proof {
                        assert forall|i: int| #[trigger] bit64(1u64 << (*v as u64), i) == (i == *v) by {
                            lemma_shl_bits(*v as u64, i);
                        }
                    }
                    Some(BitVec64Chirho(1u64 << (*v as u64)))
                } else {
                    None
                }
            },
            SymbolicConstraintChirho::RangeChirho { lo_chirho, hi_chirho } => {
                if *lo_chirho >= 0 && *hi_chirho < 64 {
                    if *hi_chirho < *lo_chirho {
                        proof {
                            lemma_zero_iff_no_bits(0);
                        }
                        return Some(BitVec64Chirho::ZERO_CHIRHO());
                    }
                    let count = (*hi_chirho - *lo_chirho + 1) as usize;
                    if count <= max_values_chirho {
                        let lo = *lo_chirho as u64;
                        let c = count as u64;
                        if c == 64 {
                            proof {
                                assert forall|i: int| #[trigger] bit64(u64::MAX, i) == (*lo_chirho <= i <= *hi_chirho) by {
                                    lemma_low_mask_bits(64, i);
                                }
                            }
                            return Some(BitVec64Chirho(u64::MAX));
                        }
                        assert((1u64 << c) >= 1) by (bit_vector)
                            requires
                                c < 64,
                        ;
                        let low = (1u64 << c) - 1;
                        let mask = low << lo;
                        proof {
                            assert(low == low_mask64(c));
                            assert forall|i: int| #[trigger] bit64(mask, i) == (*lo_chirho <= i <= *hi_chirho) by {
                                crate::hw_symbolic::lemma_shifted_mask_bits(c, lo, i);
                                lemma_low_mask_bits(c, i - lo);
                            }
                        }
                        Some(BitVec64Chirho(mask))
                    } else {
                        None
                    }
                } else {
                    None
                }
            },
            SymbolicConstraintChirho::AndChirho(cs) => {
                let mut found: Option<(i64, i64)> = None;
                let mut j: usize = 0;
                while j < cs.len()
                    invariant
                        j <= cs.len(),
                        match found {
                            Some((lo, hi)) => exists|t: int| 0 <= t < j && #[trigger] cs@[t] == (SymbolicConstraintChirho::RangeChirho { lo_chirho: lo, hi_chirho: hi }) && small_range(cs@[t]),
                            None => forall|t: int| 0 <= t < j ==> !small_range(#[trigger] cs@[t]),
                        },
                    decreases cs.len() - j,
                {
                    if found.is_none() {
                        if let SymbolicConstraintChirho::RangeChirho { lo_chirho, hi_chirho } = &cs[j] {
                            if *lo_chirho >= 0 && *hi_chirho < 64 {
                                found = Some((*lo_chirho, *hi_chirho));
                            }
                        }
                    }
                    j = j + 1;
                }
                match found {
                    Some((lo, hi)) => {
                        let ghost t = choose|t: int| 0 <= t < cs.len() && #[trigger] cs@[t] == SymbolicConstraintChirho::RangeChirho { lo_chirho: lo, hi_chirho: hi } && small_range(cs@[t]);
                        let mut bits: u64 = 0;
                        let mut v: i64 = lo;
                        proof {
                            lemma_zero_iff_no_bits(0);
                            assert(wf(cs@[t]));
                        }
                        while v <= hi
                            invariant
                                0 <= lo <= v,
                                hi < 64,
                                v <= hi + 1 || v == lo,
                                wf(self.constraint_chirho),
                                self.constraint_chirho == SymbolicConstraintChirho::AndChirho(*cs),
                                cs@[t] == (SymbolicConstraintChirho::RangeChirho { lo_chirho: lo, hi_chirho: hi }),
                                0 <= t < cs.len(),
                                forall|i: int| #[trigger] bit64(bits, i) == (lo <= i < v && sat(self.constraint_chirho, i as i64)),
                            decreases hi + 1 - v,
                        {
                            let ghost prev = bits;
                            proof {
                                lemma_wf_checkable(self.constraint_chirho, v as i64);
                            }
                            if self.contains_chirho(v) {
                                bits = bits | (1u64 << (v as u64));
                                proof {
                                    assert forall|i: int| #[trigger] bit64(bits, i) == (lo <= i < v + 1 && sat(self.constraint_chirho, i as i64)) by {
                                        lemma_or_bits(prev, 1u64 << (v as u64), i);
                                        lemma_shl_bits(v as u64, i);
                                    }
                                }
                            } else {
                                proof {
                                    assert forall|i: int| #[trigger] bit64(bits, i) == (lo <= i < v + 1 && sat(self.constraint_chirho, i as i64)) by {
                                        if i == v {
                                            assert(!bit64(prev, i));
                                        }
                                    }
                                }
                            }
                            v = v + 1;
                        }
                        proof {
                            assert forall|i: int| #[trigger] bit64(bits, i) == (0 <= i < 64 && sat(self.constraint_chirho, i as i64)) by {
                                if 0 <= i < 64 && sat(self.constraint_chirho, i as i64) {
                                    assert(sat(cs@[t], i as i64));
                                }
                            }
                            assert forall|w: i64| #[trigger] sat(self.constraint_chirho, w) == (0 <= w < 64 && bit64(bits, w as int)) by {
                                if sat(self.constraint_chirho, w) {
                                    assert(sat(cs@[t], w));
                                }
                            }
                        }
                        Some(BitVec64Chirho(bits))
                    },
                    None => None,
                }
            },
            _ => None,
        }
    }

    /// Is the constraint the empty one?
    pub fn is_empty_chirho(&self) -> (r: bool)
        ensures
            r == (self.constraint_chirho is NoneChirho),
    {
        matches!(self.constraint_chirho, SymbolicConstraintChirho::NoneChirho)
    }

    /// The value of a one-value constraint.
    pub fn is_singleton_chirho(&self) -> (r: Option<i64>)
        ensures
            r == match self.constraint_chirho {
                SymbolicConstraintChirho::ExactChirho(v) => Some(v),
                _ => None::<i64>,
            },
    {
        if let SymbolicConstraintChirho::ExactChirho(v) = self.constraint_chirho {
            Some(v)
        } else {
            None
        }
    }
}

/// Two type tags that differ (their intersection is empty although neither
/// restricts integer values).
pub open spec fn clashing_tags(a: SymbolicConstraintChirho, b: SymbolicConstraintChirho) -> bool {
    a is TypeChirho && b is TypeChirho && a->TypeChirho_0 != b->TypeChirho_0
}

/// A result of the shape `intersect_chirho` builds is well formed and, unless
/// the arguments are clashing type tags, holds exactly where both arguments hold.
pub proof fn lemma_intersect_law(a: SymbolicConstraintChirho, b: SymbolicConstraintChirho, r: SymbolicConstraintChirho)
    requires
        wf(a),
        wf(b),
        intersect_fits(a, b),
        intersect_shape(a, b, r),
    ensures
        wf(r),
        !clashing_tags(a, b) ==> forall|v: i64| #[trigger] sat(r, v) == (sat(a, v) && sat(b, v)),
{
    if a is AnyChirho {
        lemma_same_sat(r, b);
    } else if b is AnyChirho {
        lemma_same_sat(r, a);
    } else if a is NoneChirho || b is NoneChirho {
        assert forall|v: i64| #[trigger] sat(r, v) == (sat(a, v) && sat(b, v)) by {}
    } else if a is ExactChirho && b is ExactChirho {
        assert forall|v: i64| #[trigger] sat(r, v) == (sat(a, v) && sat(b, v)) by {}
    } else if a is ExactChirho {
        assert forall|v: i64| #[trigger] sat(r, v) == (sat(a, v) && sat(b, v)) by {}
    } else if b is ExactChirho {
        assert forall|v: i64| #[trigger] sat(r, v) == (sat(a, v) && sat(b, v)) by {}
    } else if a is RangeChirho && b is RangeChirho {
        assert forall|v: i64| #[trigger] sat(r, v) == (sat(a, v) && sat(b, v)) by {}
    } else if a is ModularChirho && b is ModularChirho {
        let r1 = a->remainder_chirho as int;
        let m1 = a->modulus_chirho as int;
        let r2 = b->remainder_chirho as int;
        let m2 = b->modulus_chirho as int;
        lemma_crt(r1, m1, r2, m2, 0);
        lemma_egcd(m1 as nat, m2 as nat);
        if let Some((s, l)) = crt(r1, m1, r2, m2) {
            assert(in_i64(l));
            assert(r == SymbolicConstraintChirho::ModularChirho { remainder_chirho: s as i64, modulus_chirho: l as i64 });
            assert(s as i64 == s && l as i64 == l);
        }
        assert forall|v: i64| #[trigger] sat(r, v) == (sat(a, v) && sat(b, v)) by {
            lemma_crt(r1, m1, r2, m2, v as int);
        }
    } else if (a is RangeChirho && b is ModularChirho) || (a is ModularChirho && b is RangeChirho) {
        let cs = r->AndChirho_0;
        assert forall|i: int| 0 <= i < cs.len() implies wf(#[trigger] cs@[i]) by {}
        assert forall|v: i64| #[trigger] sat(r, v) == (sat(a, v) && sat(b, v)) by {
            if sat(a, v) && sat(b, v) {
                assert forall|i: int| 0 <= i < cs.len() implies sat(#[trigger] cs@[i], v) by {}
            }
            if sat(r, v) {
                assert(sat(cs@[0], v) && sat(cs@[1], v));
            }
        }
    } else if a is NotEqualChirho || b is NotEqualChirho {
        let cs = r->AndChirho_0;
        let other = if a is NotEqualChirho { b } else { a };
        lemma_same_sat(cs@[0], other);
        assert forall|i: int| 0 <= i < cs.len() implies wf(#[trigger] cs@[i]) by {}
        assert forall|v: i64| #[trigger] sat(r, v) == (sat(a, v) && sat(b, v)) by {
            if sat(a, v) && sat(b, v) {
                assert forall|i: int| 0 <= i < cs.len() implies sat(#[trigger] cs@[i], v) by {}
            }
            if sat(r, v) {
                assert(sat(cs@[0], v) && sat(cs@[1], v));
            }
        }
    } else if a is AndChirho || b is AndChirho {
        let cs = r->AndChirho_0;
        let inner = if a is AndChirho { a->AndChirho_0 } else { b->AndChirho_0 };
        let other = if a is AndChirho { b } else { a };
        let n = inner.len() as int;
        assert forall|i: int| 0 <= i < cs.len() implies (forall|v: i64| #[trigger] sat(cs@[i], v) == if i < n { sat(inner@[i], v) } else { sat(other, v) })
            && wf(#[trigger] cs@[i]) by {
            if i < n {
                assert(same(cs@[i], inner@[i]));
                lemma_same_sat(cs@[i], inner@[i]);
                assert(wf(inner@[i]));
            } else {
                lemma_same_sat(cs@[i], other);
            }
        }
        assert forall|v: i64| #[trigger] sat(r, v) == (sat(a, v) && sat(b, v)) by {
            if sat(a, v) && sat(b, v) {
                assert forall|i: int| 0 <= i < cs.len() implies sat(#[trigger] cs@[i], v) by {
                    if i < n {
                        assert(sat(inner@[i], v));
                    }
                }
            }
            if sat(r, v) {
                assert forall|i: int| 0 <= i < n implies sat(#[trigger] inner@[i], v) by {
                    assert(sat(cs@[i], v));
                }
                assert(sat(cs@[n], v));
            }
        }
    } else if a is TypeChirho && b is TypeChirho {
        if !clashing_tags(a, b) {
            assert forall|v: i64| #[trigger] sat(r, v) == (sat(a, v) && sat(b, v)) by {}
        }
    } else {
        let cs = r->AndChirho_0;
        let other = if a is TypeChirho { b } else { a };
        lemma_same_sat(cs@[1], other);
        assert forall|i: int| 0 <= i < cs.len() implies wf(#[trigger] cs@[i]) by {}
        assert forall|v: i64| #[trigger] sat(r, v) == (sat(a, v) && sat(b, v)) by {
            if sat(a, v) && sat(b, v) {
                assert forall|i: int| 0 <= i < cs.len() implies sat(#[trigger] cs@[i], v) by {}
            }
            if sat(r, v) {
                assert(sat(cs@[0], v) && sat(cs@[1], v));
            }
        }
    }
}

} // verus!
