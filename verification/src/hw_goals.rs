//! miniKanren goals over bit-parallel search states. A goal maps a list of
//! states to a list of states: unification narrows domains and drops states
//! that became invalid, disjunction runs both goals on the same states and
//! concatenates the results.

use vstd::prelude::*;
use vstd::std_specs::bits::u64_trailing_zeros;
use crate::bits::{bit64, lemma_clear_lowest, lemma_and_bits, lemma_zero_iff_no_bits};
use crate::hardware::BitVec64Chirho;
use crate::hardware_state::SearchStateHwChirho;

verus! {

/// A goal over states with `N` variables.
#[derive(Debug)]
pub enum GoalHwChirho<const N: usize> {
    /// Variable `var` takes a value of `domain`.
    EqChirho { var_chirho: usize, domain_chirho: BitVec64Chirho },
    /// Two variables take the same value.
    UnifyChirho { var1_chirho: usize, var2_chirho: usize },
    /// Both goals, one after the other.
    ConjChirho(Box<GoalHwChirho<N>>, Box<GoalHwChirho<N>>),
    /// Either goal: the results of the first, then those of the second.
    DisjChirho(Box<GoalHwChirho<N>>, Box<GoalHwChirho<N>>),
    /// Each branch a conjunction of goals; the results of all branches in order.
    CondeChirho(Vec<Vec<GoalHwChirho<N>>>),
    /// Keeps every state.
    SucceedChirho,
    /// Keeps no state.
    FailChirho,
}

/// A state as (domain words, valid).
pub open spec fn st_m<const N: usize>(s: SearchStateHwChirho<N>) -> (Seq<u64>, bool) {
    (s.domains_chirho@.map_values(|b: BitVec64Chirho| b.0), s.valid_chirho)
}

/// States as (domain words, valid).
pub open spec fn sts_m<const N: usize>(v: Seq<SearchStateHwChirho<N>>) -> Seq<(Seq<u64>, bool)> {
    v.map_values(|s: SearchStateHwChirho<N>| st_m(s))
}

/// Restrict variable `var` to `dom`; the state is invalid once the domain is empty.
pub open spec fn eq_step(st: (Seq<u64>, bool), var: int, dom: u64) -> (Seq<u64>, bool) {
    if 0 <= var < st.0.len() {
        let d = st.0[var] & dom;
        (st.0.update(var, d), st.1 && d != 0)
    } else {
        st
    }
}

/// Give both variables the intersection of their domains.
pub open spec fn unify_step(st: (Seq<u64>, bool), v1: int, v2: int) -> (Seq<u64>, bool) {
    if 0 <= v1 < st.0.len() && 0 <= v2 < st.0.len() {
        let d = st.0[v1] & st.0[v2];
        (st.0.update(v1, d).update(v2, d), st.1 && d != 0)
    } else {
        st
    }
}

/// Apply a step to each state and keep the valid results, in order.
pub open spec fn map_keep(s: Seq<(Seq<u64>, bool)>, f: spec_fn((Seq<u64>, bool)) -> (Seq<u64>, bool)) -> Seq<(Seq<u64>, bool)>
    decreases s.len(),
{
    if s.len() == 0 {
        s
    } else if f(s.last()).1 {
        map_keep(s.drop_last(), f).push(f(s.last()))
    } else {
        map_keep(s.drop_last(), f)
    }
}

/// The states a goal produces from the states `s`.
pub open spec fn apply<const N: usize>(g: GoalHwChirho<N>, s: Seq<(Seq<u64>, bool)>) -> Seq<(Seq<u64>, bool)>
    decreases g, 0nat,
{
    match g {
        GoalHwChirho::EqChirho { var_chirho, domain_chirho } => map_keep(s, |x: (Seq<u64>, bool)| eq_step(x, var_chirho as int, domain_chirho.0)),
        GoalHwChirho::UnifyChirho { var1_chirho, var2_chirho } => map_keep(s, |x: (Seq<u64>, bool)| unify_step(x, var1_chirho as int, var2_chirho as int)),
        GoalHwChirho::ConjChirho(g1, g2) => apply(*g2, apply(*g1, s)),
        GoalHwChirho::DisjChirho(g1, g2) => apply(*g1, s) + apply(*g2, s),
        GoalHwChirho::CondeChirho(bs) => apply_branches(bs, bs.len() as int, s),
        GoalHwChirho::SucceedChirho => s,
        GoalHwChirho::FailChirho => Seq::empty(),
    }
}

/// The results of the first `n` branches, concatenated.
pub open spec fn apply_branches<const N: usize>(bs: Vec<Vec<GoalHwChirho<N>>>, n: int, s: Seq<(Seq<u64>, bool)>) -> Seq<(Seq<u64>, bool)>
    decreases bs, n,
{
    if n <= 0 || n > bs.len() {
        Seq::empty()
    } else {
        proof {
            vstd::std_specs::vec::axiom_vec_index_decreases(bs, n - 1);
        }
        apply_branches(bs, n - 1, s) + apply_all(bs[n - 1], bs[n - 1].len() as int, s)
    }
}

/// The first `n` goals of a branch, one after the other.
pub open spec fn apply_all<const N: usize>(gs: Vec<GoalHwChirho<N>>, n: int, s: Seq<(Seq<u64>, bool)>) -> Seq<(Seq<u64>, bool)>
    decreases gs, n,
{
    if n <= 0 || n > gs.len() {
        s
    } else {
        proof {
            vstd::std_specs::vec::axiom_vec_index_decreases(gs, n - 1);
        }
        apply(gs[n - 1], apply_all(gs, n - 1, s))
    }
}

/// The values of a domain, smallest first.
pub open spec fn bits_list(d: u64) -> Seq<u32>
    decreases d,
{
    if d == 0 {
        Seq::empty()
    } else {
        proof {
            lemma_clear_lowest(d);
        }
        seq![u64_trailing_zeros(d)] + bits_list(d & ((d - 1) as u64))
    }
}

/// The listed values are exactly the domain's values.
pub proof fn lemma_bits_list(d: u64)
    ensures
        forall|v: u32| #[trigger] bits_list(d).contains(v) == bit64(d, v as int),
    decreases d,
{
    if d == 0 {
        lemma_zero_iff_no_bits(0);
    } else {
        lemma_clear_lowest(d);
        let c = d & ((d - 1) as u64);
        lemma_bits_list(c);
        assert forall|v: u32| #[trigger] bits_list(d).contains(v) == bit64(d, v as int) by {
            let l = bits_list(d);
            assert(l == seq![u64_trailing_zeros(d)] + bits_list(c));
            if bits_list(c).contains(v) {
                let k = choose|k: int| 0 <= k < bits_list(c).len() && bits_list(c)[k] == v;
                assert(l[k + 1] == v);
            }
            if l.contains(v) {
                let k = choose|k: int| 0 <= k < l.len() && l[k] == v;
                if k > 0 {
                    assert(bits_list(c)[k - 1] == v);
                }
            }
            if bit64(d, v as int) && v != u64_trailing_zeros(d) {
                assert(bit64(c, v as int));
            }
            if v == u64_trailing_zeros(d) {
                assert(l[0] == v);
            }
        }
    }
}

/// The query variable's values over the states, state by state.
pub open spec fn query_values(fs: Seq<(Seq<u64>, bool)>, qv: int) -> Seq<u32>
    decreases fs.len(),
{
    if fs.len() == 0 {
        Seq::empty()
    } else {
        query_values(fs.drop_last(), qv) + if fs.last().1 && 0 <= qv < fs.last().0.len() {
            bits_list(fs.last().0[qv])
        } else {
            Seq::empty()
        }
    }
}

/// Variable `var` takes a value of `domain`.
pub fn eq_hw_chirho<const N: usize>(var_chirho: usize, domain_chirho: BitVec64Chirho) -> (r: GoalHwChirho<N>)
    ensures
        r == (GoalHwChirho::<N>::EqChirho { var_chirho, domain_chirho }),
{
    GoalHwChirho::EqChirho { var_chirho, domain_chirho }
}

/// The two variables take the same value.
pub fn unify_hw_chirho<const N: usize>(var1_chirho: usize, var2_chirho: usize) -> (r: GoalHwChirho<N>)
    ensures
        r == (GoalHwChirho::<N>::UnifyChirho { var1_chirho, var2_chirho }),
{
    GoalHwChirho::UnifyChirho { var1_chirho, var2_chirho }
}

/// Both goals.
pub fn conj_hw_chirho<const N: usize>(g1_chirho: GoalHwChirho<N>, g2_chirho: GoalHwChirho<N>) -> (r: GoalHwChirho<N>)
    ensures
        r == GoalHwChirho::<N>::ConjChirho(Box::new(g1_chirho), Box::new(g2_chirho)),
{
    GoalHwChirho::ConjChirho(Box::new(g1_chirho), Box::new(g2_chirho))
}

/// Either goal.
pub fn disj_hw_chirho<const N: usize>(g1_chirho: GoalHwChirho<N>, g2_chirho: GoalHwChirho<N>) -> (r: GoalHwChirho<N>)
    ensures
        r == GoalHwChirho::<N>::DisjChirho(Box::new(g1_chirho), Box::new(g2_chirho)),
{
    GoalHwChirho::DisjChirho(Box::new(g1_chirho), Box::new(g2_chirho))
}

/// Branches of conjunctions.
pub fn conde_hw_chirho<const N: usize>(branches_chirho: Vec<Vec<GoalHwChirho<N>>>) -> (r: GoalHwChirho<N>)
    ensures
        r == GoalHwChirho::<N>::CondeChirho(branches_chirho),
{
    GoalHwChirho::CondeChirho(branches_chirho)
}

/// Keeps every state.
pub fn succeed_hw_chirho<const N: usize>() -> (r: GoalHwChirho<N>)
    ensures
        r == GoalHwChirho::<N>::SucceedChirho,
{
    GoalHwChirho::SucceedChirho
}

/// Keeps no state.
pub fn fail_hw_chirho<const N: usize>() -> (r: GoalHwChirho<N>)
    ensures
        r == GoalHwChirho::<N>::FailChirho,
{
    GoalHwChirho::FailChirho
}

fn copy_states_chirho<const N: usize>(v: &Vec<SearchStateHwChirho<N>>) -> (r: Vec<SearchStateHwChirho<N>>)
    ensures
        r@ == v@,
{
    let mut out: Vec<SearchStateHwChirho<N>> = Vec::new();
    let mut i: usize = 0;
    while i < v.len()
        invariant
            i <= v.len(),
            out@ == v@.take(i as int),
        decreases v.len() - i,
    {
        out.push(v[i]);
        proof {
            assert(out@ =~= v@.take(i + 1));
        }
        i = i + 1;
    }
    proof {
        assert(v@.take(v.len() as int) =~= v@);
    }
    out
}

/// Run a goal on the states.
pub fn apply_goal_chirho<const N: usize>(g: &GoalHwChirho<N>, states: Vec<SearchStateHwChirho<N>>) -> (r: Vec<SearchStateHwChirho<N>>)
    ensures
        sts_m(r@) == apply(*g, sts_m(states@)),
    decreases g, 0nat,
{
    match g {
        GoalHwChirho::EqChirho { var_chirho, domain_chirho } => {
            let ghost f = |x: (Seq<u64>, bool)| eq_step(x, *var_chirho as int, domain_chirho.0);
            let mut out: Vec<SearchStateHwChirho<N>> = Vec::new();
            let mut i: usize = 0;
            proof {
                assert(sts_m(states@).take(0) =~= Seq::<(Seq<u64>, bool)>::empty());
            }
            while i < states.len()
                invariant
                    i <= states.len(),
                    f == (|x: (Seq<u64>, bool)| eq_step(x, *var_chirho as int, domain_chirho.0)),
                    sts_m(out@) == map_keep(sts_m(states@).take(i as int), f),
                decreases states.len() - i,
            {
                let mut st = states[i];
                let ghost s0 = st_m(st);
                if *var_chirho < N {
                    let d = st.domains_chirho[*var_chirho].and_chirho(*domain_chirho);
                    st.domains_chirho[*var_chirho] = d;
                    if d.is_zero_chirho() {
                        st.valid_chirho = false;
                    }
                }
                proof {
                    assert(st_m(st).0 =~= eq_step(s0, *var_chirho as int, domain_chirho.0).0);
                    assert(st_m(st) == f(s0));
                    assert(sts_m(states@).take(i + 1).drop_last() =~= sts_m(states@).take(i as int));
                    assert(sts_m(states@).take(i + 1).last() == s0);
                }
                if st.valid_chirho {
                    let ghost o0 = out@;
                    out.push(st);
                    proof {
                        assert(sts_m(out@) =~= sts_m(o0).push(st_m(st)));
                    }
                }
                i = i + 1;
            }
            proof {
                assert(sts_m(states@).take(states.len() as int) =~= sts_m(states@));
            }
            out
        },
        GoalHwChirho::UnifyChirho { var1_chirho, var2_chirho } => {
            let ghost f = |x: (Seq<u64>, bool)| unify_step(x, *var1_chirho as int, *var2_chirho as int);
            let mut out: Vec<SearchStateHwChirho<N>> = Vec::new();
            let mut i: usize = 0;
            proof {
                assert(sts_m(states@).take(0) =~= Seq::<(Seq<u64>, bool)>::empty());
            }
            while i < states.len()
                invariant
                    i <= states.len(),
                    f == (|x: (Seq<u64>, bool)| unify_step(x, *var1_chirho as int, *var2_chirho as int)),
                    sts_m(out@) == map_keep(sts_m(states@).take(i as int), f),
                decreases states.len() - i,
            {
                let mut st = states[i];
                let ghost s0 = st_m(st);
                st.unify_chirho(*var1_chirho, *var2_chirho);
                proof {
                    assert(st_m(st).0 =~= unify_step(s0, *var1_chirho as int, *var2_chirho as int).0);
                    assert(st_m(st) == f(s0));
                    assert(sts_m(states@).take(i + 1).drop_last() =~= sts_m(states@).take(i as int));
                    assert(sts_m(states@).take(i + 1).last() == s0);
                }
                if st.valid_chirho {
                    let ghost o0 = out@;
                    out.push(st);
                    proof {
                        assert(sts_m(out@) =~= sts_m(o0).push(st_m(st)));
                    }
                }
                i = i + 1;
            }
            proof {
                assert(sts_m(states@).take(states.len() as int) =~= sts_m(states@));
            }
            out
        },
        GoalHwChirho::ConjChirho(g1, g2) => {
            let mid = apply_goal_chirho(g1, states);
            apply_goal_chirho(g2, mid)
        },
        GoalHwChirho::DisjChirho(g1, g2) => {
            let copy = copy_states_chirho(&states);
            let mut r1 = apply_goal_chirho(g1, copy);
            let mut r2 = apply_goal_chirho(g2, states);
            let ghost a = r1@;
            let ghost b = r2@;
            r1.append(&mut r2);
            proof {
                assert(sts_m(r1@) =~= sts_m(a) + sts_m(b));
            }
            r1
        },
        GoalHwChirho::CondeChirho(bs) => {
            let ghost s = sts_m(states@);
            let mut out: Vec<SearchStateHwChirho<N>> = Vec::new();
            let mut k: usize = 0;
            while k < bs.len()
                invariant
                    k <= bs.len(),
                    *g == GoalHwChirho::<N>::CondeChirho(*bs),
                    s == sts_m(states@),
                    sts_m(out@) == apply_branches(*bs, k as int, s),
                decreases bs.len() - k,
            {
                proof {
                    vstd::std_specs::vec::axiom_vec_index_decreases(*bs, k as int);
                }
                let branch = &bs[k];
                proof {
                    assert((*g)->CondeChirho_0 == *bs);
                    assert(decreases_to!(*g => (*g)->CondeChirho_0));
                    assert(decreases_to!(*g => *branch));
                }
                let mut cur = copy_states_chirho(&states);
                let mut j: usize = 0;
                while j < branch.len()
                    invariant
                        k < bs.len(),
                        branch == &bs[k as int],
                        j <= branch.len(),
                        s == sts_m(states@),
                        sts_m(cur@) == apply_all(*branch, j as int, s),
                        decreases_to!(*g => *branch),
                    decreases branch.len() - j,
                {
                    proof {
                        vstd::std_specs::vec::axiom_vec_index_decreases(*branch, j as int);
                    }
                    cur = apply_goal_chirho(&branch[j], cur);
                    j = j + 1;
                }
                let ghost a = out@;
                let ghost b = cur@;
                out.append(&mut cur);
                proof {
                    assert(sts_m(out@) =~= sts_m(a) + sts_m(b));
                }
                k = k + 1;
            }
            out
        },
        GoalHwChirho::SucceedChirho => states,
        GoalHwChirho::FailChirho => Vec::new(),
    }
}

/// The fresh state: every variable may take every value.
pub open spec fn fresh_m(n: usize) -> (Seq<u64>, bool) {
    (Seq::new(n as nat, |i: int| u64::MAX), true)
}

/// Run a goal from the fresh state and list the query variable's values,
/// state by state and smallest first, at most `n_chirho` of them.
pub fn run_hw_chirho<const N: usize>(n_chirho: usize, query_var_chirho: usize, goal_chirho: GoalHwChirho<N>) -> (r: Vec<u32>)
    ensures
        ({
            let all = query_values(apply(goal_chirho, seq![fresh_m(N)]), query_var_chirho as int);
            r@ == all.take(if all.len() < n_chirho { all.len() as int } else { n_chirho as int })
        }),
{
    let init = SearchStateHwChirho::<N>::new_chirho();
    let mut start: Vec<SearchStateHwChirho<N>> = Vec::new();
    start.push(init);
    proof {
        assert(st_m(init).0 =~= fresh_m(N).0);
        assert(sts_m(start@) =~= seq![fresh_m(N)]);
    }
    let final_states = apply_goal_chirho(&goal_chirho, start);
    let ghost fs = sts_m(final_states@);
    let ghost qv = query_var_chirho as int;
    let mut solutions: Vec<u32> = Vec::new();
    let mut i: usize = 0;
    proof {
        assert(fs.take(0) =~= Seq::<(Seq<u64>, bool)>::empty());
    }
    while i < final_states.len()
        invariant
            i <= final_states.len(),
            fs == sts_m(final_states@),
            fs == apply(goal_chirho, seq![fresh_m(N)]),
            qv == query_var_chirho as int,
            solutions@ == query_values(fs.take(i as int), qv),
            solutions.len() < n_chirho || n_chirho == 0 || solutions.len() == 0,
            solutions.len() <= n_chirho,
        decreases final_states.len() - i,
    {
        let st = final_states[i];
        proof {
            assert(fs.take(i + 1).drop_last() =~= fs.take(i as int));
            assert(fs.take(i + 1).last() == st_m(st));
        }
        if !st.valid_chirho || query_var_chirho >= N {
            proof {
                assert(query_values(fs.take(i + 1), qv) =~= query_values(fs.take(i as int), qv));
            }
            i = i + 1;
            continue;
        }
        let d0 = st.domains_chirho[query_var_chirho];
        let mut d = d0;
        let ghost base = solutions@;
        let ghost full = bits_list(d0.0);
        let ghost mut c: int = 0;
        proof {
            assert(st_m(st).0[qv] == d0.0);
            assert(full.skip(0) =~= full);
        }
        while !d.is_zero_chirho() && solutions.len() < n_chirho
            invariant
                0 <= c <= full.len(),
                full == bits_list(d0.0),
                bits_list(d.0) == full.skip(c),
                solutions@ == base + full.take(c),
                solutions.len() <= n_chirho,
            decreases d.0,
        {
            proof {
                lemma_clear_lowest(d.0);
                assert(full.skip(c)[0] == u64_trailing_zeros(d.0));
                assert(full.skip(c).drop_first() =~= full.skip(c + 1));
            }
            let v = d.ctz_chirho();
            solutions.push(v);
            d = d.clear_lowest_chirho();
            proof {
                assert(full.take(c + 1) =~= full.take(c).push(v));
                c = c + 1;
            }
        }
        if solutions.len() >= n_chirho {
            proof {
                let all = query_values(fs, qv);
                lemma_query_values_prefix(fs, i as int + 1, qv);
                assert(query_values(fs.take(i + 1), qv) =~= base + full);
                assert(solutions.len() == n_chirho);
                assert((base + full).len() >= n_chirho);
                assert(all.len() >= n_chirho);
                assert(solutions@ =~= all.take(n_chirho as int)) by {
                    assert(solutions@ =~= (base + full).take(n_chirho as int));
                    assert forall|k: int| 0 <= k < n_chirho implies all[k] == (base + full)[k] by {
                        assert(query_values(fs.take(i + 1), qv)[k] == all[k]);
                    }
                }
            }
            return solutions;
        }
        proof {
            assert(d.0 == 0);
            assert(c == full.len());
            assert(full.take(c) =~= full);
            assert(query_values(fs.take(i + 1), qv) =~= base + full);
        }
        i = i + 1;
    }
    proof {
        assert(fs.take(final_states.len() as int) =~= fs);
        assert(solutions@ =~= query_values(fs, qv).take(solutions.len() as int));
    }
    solutions
}

/// The values of a prefix of the states begin the values of all of them.
proof fn lemma_query_values_prefix(fs: Seq<(Seq<u64>, bool)>, m: int, qv: int)
    requires
        0 <= m <= fs.len(),
    ensures
        query_values(fs.take(m), qv).len() <= query_values(fs, qv).len(),
        forall|k: int| 0 <= k < query_values(fs.take(m), qv).len()
            ==> #[trigger] query_values(fs.take(m), qv)[k] == query_values(fs, qv)[k],
    decreases fs.len(),
{
    if m < fs.len() {
        assert(fs.drop_last().take(m) =~= fs.take(m));
        lemma_query_values_prefix(fs.drop_last(), m, qv);
    } else {
        assert(fs.take(m) =~= fs);
    }
}


/// Every state kept by `map_keep` is the step applied to some input state,
/// and valid.
pub proof fn lemma_map_keep_from(s: Seq<(Seq<u64>, bool)>, f: spec_fn((Seq<u64>, bool)) -> (Seq<u64>, bool))
    ensures
        forall|k: int| 0 <= k < map_keep(s, f).len() ==> exists|i: int| 0 <= i < s.len() && #[trigger] map_keep(s, f)[k] == f(s[i]) && f(s[i]).1,
    decreases s.len(),
{
    if s.len() > 0 {
        lemma_map_keep_from(s.drop_last(), f);
        let m = map_keep(s.drop_last(), f);
        assert forall|k: int| 0 <= k < map_keep(s, f).len() implies exists|i: int| 0 <= i < s.len() && #[trigger] map_keep(s, f)[k] == f(s[i]) && f(s[i]).1 by {
            if k < m.len() {
                assert(map_keep(s, f)[k] == m[k]);
                let i = choose|i: int| 0 <= i < s.drop_last().len() && #[trigger] m[k] == f(s.drop_last()[i]) && f(s.drop_last()[i]).1;
                assert(s.drop_last()[i] == s[i]);
            } else {
                assert(map_keep(s, f)[k] == f(s.last()));
                assert(s.last() == s[s.len() - 1]);
            }
        }
    }
}

/// Every input state whose step result is valid is kept.
pub proof fn lemma_map_keep_keeps(s: Seq<(Seq<u64>, bool)>, f: spec_fn((Seq<u64>, bool)) -> (Seq<u64>, bool))
    ensures
        forall|i: int| 0 <= i < s.len() && (#[trigger] f(s[i])).1 ==> map_keep(s, f).contains(f(s[i])),
    decreases s.len(),
{
    if s.len() > 0 {
        lemma_map_keep_keeps(s.drop_last(), f);
        let m = map_keep(s.drop_last(), f);
        assert forall|i: int| 0 <= i < s.len() && (#[trigger] f(s[i])).1 implies map_keep(s, f).contains(f(s[i])) by {
            if i < s.len() - 1 {
                assert(s.drop_last()[i] == s[i]);
                assert(f(s.drop_last()[i]).1);
                let k = choose|k: int| 0 <= k < m.len() && m[k] == f(s.drop_last()[i]);
                if f(s.last()).1 {
                    assert(map_keep(s, f)[k] == m[k]);
                }
            } else {
                assert(s[i] == s.last());
                assert(map_keep(s, f)[m.len() as int] == f(s.last()));
            }
        }
    }
}

/// `x` is `y` with variables `v1` and `v2` both given the intersection of
/// their domains in `y`, every other variable unchanged, and valid with that
/// intersection non-empty.
pub open spec fn unified_from(x: (Seq<u64>, bool), y: (Seq<u64>, bool), v1: int, v2: int) -> bool {
    &&& x.0.len() == y.0.len()
    &&& x.0[v1] == y.0[v1] & y.0[v2]
    &&& x.0[v2] == y.0[v1] & y.0[v2]
    &&& forall|w: int| 0 <= w < y.0.len() && w != v1 && w != v2 ==> x.0[w] == y.0[w]
    &&& x.1 && y.1 && x.0[v1] != 0
}

/// `x` is unified, as `unified_from` says, from one of the states `s`.
pub open spec fn unified_from_some(x: (Seq<u64>, bool), s: Seq<(Seq<u64>, bool)>, v1: int, v2: int) -> bool {
    exists|i: int| 0 <= i < s.len() && #[trigger] unified_from(x, s[i], v1, v2)
}

/// A unification goal leaves, for each state it keeps, both variables with
/// the same domain, the intersection of their domains in the state it came
/// from, and every other variable as it was; it keeps every valid state whose
/// intersection is non-empty.
pub proof fn lemma_unify_goal<const N: usize>(g: GoalHwChirho<N>, v1: usize, v2: usize, s: Seq<(Seq<u64>, bool)>)
    requires
        g == (GoalHwChirho::<N>::UnifyChirho { var1_chirho: v1, var2_chirho: v2 }),
        forall|i: int| 0 <= i < s.len() ==> v1 < (#[trigger] s[i]).0.len() && v2 < s[i].0.len(),
    ensures
        forall|k: int| 0 <= k < apply(g, s).len() ==> #[trigger] unified_from_some(apply(g, s)[k], s, v1 as int, v2 as int),
        forall|i: int| 0 <= i < s.len() && #[trigger] s[i].1 && s[i].0[v1 as int] & s[i].0[v2 as int] != 0 ==> apply(g, s).contains(
            (s[i].0.update(v1 as int, s[i].0[v1 as int] & s[i].0[v2 as int]).update(v2 as int, s[i].0[v1 as int] & s[i].0[v2 as int]), true),
        ),
{
    let f = |x: (Seq<u64>, bool)| unify_step(x, v1 as int, v2 as int);
    assert(apply(g, s) == map_keep(s, f));
    lemma_map_keep_from(s, f);
    lemma_map_keep_keeps(s, f);
    assert forall|k: int| 0 <= k < apply(g, s).len() implies #[trigger] unified_from_some(apply(g, s)[k], s, v1 as int, v2 as int) by {
        let i = choose|i: int| 0 <= i < s.len() && #[trigger] map_keep(s, f)[k] == f(s[i]) && f(s[i]).1;
        let y = s[i];
        assert(v1 < y.0.len() && v2 < y.0.len());
        let d = y.0[v1 as int] & y.0[v2 as int];
        assert(apply(g, s)[k] == (y.0.update(v1 as int, d).update(v2 as int, d), y.1 && d != 0));
        if v1 == v2 {
            assert(d == y.0[v1 as int]) by {
                let a = y.0[v1 as int];
                assert(a & a == a) by (bit_vector);
            }
        }
        assert(unified_from(apply(g, s)[k], s[i], v1 as int, v2 as int));
        assert(unified_from_some(apply(g, s)[k], s, v1 as int, v2 as int));
    }
    assert forall|i: int| 0 <= i < s.len() && #[trigger] s[i].1 && s[i].0[v1 as int] & s[i].0[v2 as int] != 0 implies apply(g, s).contains(
        (s[i].0.update(v1 as int, s[i].0[v1 as int] & s[i].0[v2 as int]).update(v2 as int, s[i].0[v1 as int] & s[i].0[v2 as int]), true)) by {
        assert(v1 < s[i].0.len() && v2 < s[i].0.len());
        assert(f(s[i]).1);
    }
}


/// `x` is `y` with variable `var` narrowed to the values of `dom`, every
/// other variable unchanged, and valid with that domain non-empty.
pub open spec fn narrowed_from(x: (Seq<u64>, bool), y: (Seq<u64>, bool), var: int, dom: u64) -> bool {
    &&& x.0.len() == y.0.len()
    &&& x.0[var] == y.0[var] & dom
    &&& forall|w: int| 0 <= w < y.0.len() && w != var ==> x.0[w] == y.0[w]
    &&& x.1 && y.1 && x.0[var] != 0
}

/// `x` is narrowed, as `narrowed_from` says, from one of the states `s`.
pub open spec fn narrowed_from_some(x: (Seq<u64>, bool), s: Seq<(Seq<u64>, bool)>, var: int, dom: u64) -> bool {
    exists|i: int| 0 <= i < s.len() && #[trigger] narrowed_from(x, s[i], var, dom)
}

/// An equality goal narrows the variable to the given values in each state
/// it keeps, leaving the others alone, and keeps every valid state where some
/// value remains.
pub proof fn lemma_eq_goal<const N: usize>(g: GoalHwChirho<N>, var: usize, dom: BitVec64Chirho, s: Seq<(Seq<u64>, bool)>)
    requires
        g == (GoalHwChirho::<N>::EqChirho { var_chirho: var, domain_chirho: dom }),
        forall|i: int| 0 <= i < s.len() ==> var < (#[trigger] s[i]).0.len(),
    ensures
        forall|k: int| 0 <= k < apply(g, s).len() ==> #[trigger] narrowed_from_some(apply(g, s)[k], s, var as int, dom.0),
        forall|i: int| 0 <= i < s.len() && #[trigger] s[i].1 && s[i].0[var as int] & dom.0 != 0 ==> apply(g, s).contains(
            (s[i].0.update(var as int, s[i].0[var as int] & dom.0), true),
        ),
{
    let f = |x: (Seq<u64>, bool)| eq_step(x, var as int, dom.0);
    assert(apply(g, s) == map_keep(s, f));
    lemma_map_keep_from(s, f);
    lemma_map_keep_keeps(s, f);
    assert forall|k: int| 0 <= k < apply(g, s).len() implies #[trigger] narrowed_from_some(apply(g, s)[k], s, var as int, dom.0) by {
        let i = choose|i: int| 0 <= i < s.len() && #[trigger] map_keep(s, f)[k] == f(s[i]) && f(s[i]).1;
        assert(var < s[i].0.len());
        assert(narrowed_from(apply(g, s)[k], s[i], var as int, dom.0));
    }
    assert forall|i: int| 0 <= i < s.len() && #[trigger] s[i].1 && s[i].0[var as int] & dom.0 != 0 implies apply(g, s).contains(
        (s[i].0.update(var as int, s[i].0[var as int] & dom.0), true)) by {
        assert(var < s[i].0.len());
        assert(f(s[i]).1);
    }
}

} // verus!
