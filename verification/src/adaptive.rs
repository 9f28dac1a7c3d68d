//! Mode analysis of goals and the ground-first ordering of goals, with the
//! names of the domain strategies.

use vstd::prelude::*;

verus! {

/// A domain representation strategy.
#[derive(Debug, Clone, Copy, PartialEq, Eq, Structural)]
pub enum StrategyChirho {
    /// One 64-bit word (at most 64 values).
    BitVec64Chirho,
    /// A two-level 4096-value domain.
    Hierarchical4kChirho,
    /// Symbolic constraints (unbounded domains).
    SymbolicChirho,
    /// Differentiable domains (learning).
    DifferentiableChirho,
}

/// How ground a goal's arguments are.
#[derive(Debug, Clone, Copy, PartialEq, Eq, Structural)]
pub enum ModeChirho {
    /// Every argument ground.
    GroundChirho,
    /// Some arguments ground.
    MixedChirho,
    /// No argument ground.
    FreeChirho,
}

/// Number of `true` entries.
pub open spec fn count_true(s: Seq<bool>) -> nat
    decreases s.len(),
{
    if s.len() == 0 {
        0
    } else {
        count_true(s.drop_last()) + if s.last() { 1nat } else { 0nat }
    }
}

proof fn lemma_count_true_bound(s: Seq<bool>)
    ensures
        count_true(s) <= s.len(),
    decreases s.len(),
{
    if s.len() > 0 {
        lemma_count_true_bound(s.drop_last());
    }
}

/// Number of ground arguments.
fn ground_count_chirho(g: &[bool]) -> (r: usize)
    ensures
        r == count_true(g@),
{
    let mut c: usize = 0;
    let mut i: usize = 0;
    while i < g.len()
        invariant
            i <= g.len(),
            c == count_true(g@.take(i as int)),
            c <= i,
        decreases g.len() - i,
    {
        proof {
            assert(g@.take(i + 1).drop_last() =~= g@.take(i as int));
        }
        if g[i] {
            c = c + 1;
        }
        i = i + 1;
    }
    proof {
        assert(g@.take(g.len() as int) =~= g@);
    }
    c
}

/// Ground when every argument is ground, free when none is, mixed otherwise.
pub fn analyze_mode_chirho(groundness_chirho: &[bool]) -> (r: ModeChirho)
    ensures
        r == if count_true(groundness_chirho@) == groundness_chirho@.len() {
            ModeChirho::GroundChirho
        } else if count_true(groundness_chirho@) > 0 {
            ModeChirho::MixedChirho
        } else {
            ModeChirho::FreeChirho
        },
{
    let c = ground_count_chirho(groundness_chirho);
    if c == groundness_chirho.len() {
        ModeChirho::GroundChirho
    } else if c > 0 {
        ModeChirho::MixedChirho
    } else {
        ModeChirho::FreeChirho
    }
}

/// `idx` lists `0..n` once each, most ground first, and in their original
/// order among equally ground goals.
pub open spec fn ground_first(idx: Seq<usize>, counts: Seq<nat>, n: int) -> bool {
    &&& idx.len() == n
    &&& idx.no_duplicates()
    &&& forall|k: int| 0 <= k < n ==> #[trigger] idx[k] < n
    &&& forall|k: int, l: int| 0 <= k < l < n ==> counts[#[trigger] idx[k] as int] >= counts[#[trigger] idx[l] as int]
        && (counts[idx[k] as int] == counts[idx[l] as int] ==> idx[k] < idx[l])
}

/// The goals paired with their positions, most ground first (a stable
/// ordering by the number of ground arguments); goals beyond the
/// groundness list are dropped.
pub fn reorder_goals_chirho<T: Clone>(goals_chirho: &[T], groundness_chirho: &[Vec<bool>]) -> (r: Vec<(usize, T)>)
    ensures
        ({
            let n = if goals_chirho@.len() < groundness_chirho@.len() { goals_chirho@.len() } else { groundness_chirho@.len() };
            let counts = Seq::new(groundness_chirho@.len(), |i: int| count_true(groundness_chirho@[i]@));
            &&& ground_first(r@.map_values(|p: (usize, T)| p.0), counts, n as int)
            &&& forall|k: int| 0 <= k < r.len() ==> cloned::<T>(goals_chirho@[#[trigger] r@[k].0 as int], r@[k].1)
        }),
{
    let n = if goals_chirho.len() < groundness_chirho.len() { goals_chirho.len() } else { groundness_chirho.len() };
    let ghost counts = Seq::new(groundness_chirho@.len(), |i: int| count_true(groundness_chirho@[i]@));
    let mut cnt: Vec<usize> = Vec::new();
    let mut idx: Vec<usize> = Vec::new();
    let mut i: usize = 0;
    while i < n
        invariant
            n <= goals_chirho.len(),
            n <= groundness_chirho.len(),
            i <= n,
            counts == Seq::new(groundness_chirho@.len(), |i: int| count_true(groundness_chirho@[i]@)),
            cnt.len() == i,
            forall|t: int| 0 <= t < i ==> #[trigger] cnt@[t] == counts[t],
            ground_first(idx@, counts, i as int),
        decreases n - i,
    {
        let c = ground_count_chirho(groundness_chirho[i].as_slice());
        cnt.push(c);
        let mut p: usize = 0;
        while p < idx.len() && cnt[idx[p]] >= c
            invariant
                p <= idx.len(),
                idx.len() == i,
                cnt.len() == i + 1,
                forall|t: int| 0 <= t < i + 1 ==> #[trigger] cnt@[t] == counts[t],
                c == counts[i as int],
                ground_first(idx@, counts, i as int),
                forall|k: int| 0 <= k < p ==> counts[#[trigger] idx@[k] as int] >= c,
            decreases idx.len() - p,
        {
            p = p + 1;
        }
        let ghost old_idx = idx@;
        idx.insert(p, i);
        proof {
            assert(p < old_idx.len() ==> counts[old_idx[p as int] as int] < c);
            assert forall|k: int, l: int| 0 <= k < l < i + 1 implies counts[#[trigger] idx@[k] as int] >= counts[#[trigger] idx@[l] as int]
                && (counts[idx@[k] as int] == counts[idx@[l] as int] ==> idx@[k] < idx@[l]) by {
                if k < p && l == p {
                    assert(counts[old_idx[k] as int] >= c);
                } else if k == p && l > p {
                    assert(idx@[l] == old_idx[l - 1]);
                    if l - 1 > p {
                        assert(counts[old_idx[p as int] as int] >= counts[old_idx[l - 1] as int]);
                    }
                } else if k < p && l > p {
                    assert(idx@[k] == old_idx[k] && idx@[l] == old_idx[l - 1]);
                } else if l < p {
                    assert(idx@[k] == old_idx[k] && idx@[l] == old_idx[l]);
                } else if k > p {
                    assert(idx@[k] == old_idx[k - 1] && idx@[l] == old_idx[l - 1]);
                }
            }
            assert forall|k: int| 0 <= k < i + 1 implies #[trigger] idx@[k] < i + 1 by {
                if k < p {
                    assert(idx@[k] == old_idx[k]);
                } else if k > p {
                    assert(idx@[k] == old_idx[k - 1]);
                }
            }
            assert(idx@.no_duplicates()) by {
                assert forall|k: int, l: int| 0 <= k < l < i + 1 implies idx@[k] != idx@[l] by {
                    if k == p {
                        assert(idx@[l] == old_idx[l - 1]);
                    } else if l == p {
                        assert(idx@[k] == old_idx[k]);
                    } else {
                        let k0 = if k < p { k } else { k - 1 };
                        let l0 = if l < p { l } else { l - 1 };
                        assert(idx@[k] == old_idx[k0] && idx@[l] == old_idx[l0]);
                    }
                }
            }
        }
        i = i + 1;
    }
    let mut out: Vec<(usize, T)> = Vec::new();
    let mut k: usize = 0;
    while k < idx.len()
        invariant
            k <= idx.len(),
            idx.len() == n,
            n <= goals_chirho.len(),
            forall|t: int| 0 <= t < n ==> #[trigger] idx@[t] < n,
            out.len() == k,
            forall|t: int| 0 <= t < k ==> #[trigger] out@[t].0 == idx@[t],
            forall|t: int| 0 <= t < k ==> cloned::<T>(goals_chirho@[#[trigger] out@[t].0 as int], out@[t].1),
        decreases idx.len() - k,
    {
        let j = idx[k];
        let g = goals_chirho[j].clone();
        out.push((j, g));
        k = k + 1;
    }
    proof {
        assert(out@.map_values(|p: (usize, T)| p.0) =~= idx@);
    }
    out
}

} // verus!
