//! SLG resolution support: a table of subgoals with their answers and
//! dependencies, strongly connected components of the dependency graph
//! completed together, and the even/odd recurrence as bit sets.

use vstd::prelude::*;
use crate::bits::{bit64, lemma_or_bits, lemma_shl_bits, lemma_mask_test, lemma_zero_iff_no_bits};
use crate::adaptive::count_true;
use crate::reach::{
    adj_matches, assign_components_chirho, count_row_chirho, id_used, mutual_via, reach_row_chirho,
    reaches_via, rows_match,
};

verus! {

/// Even and odd numbers as bit sets (bit `i` set when `i` is even, resp. odd).
#[derive(Debug)]
pub struct EvenOddTensorChirho {
    pub even_bits_chirho: u64,
    pub odd_bits_chirho: u64,
    pub max_computed_chirho: u32,
}

/// The recurrence from `i` to `hi`: `i` is even when `i - 1` is odd, and odd
/// when `i - 1` is even.
pub open spec fn eo_iter(e: u64, o: u64, i: int, hi: int) -> (u64, u64)
    decreases hi - i + 1,
{
    if i > hi || i < 1 || i >= 64 {
        (e, o)
    } else {
        let e1 = if bit64(o, i - 1) { e | (1u64 << (i as u64)) } else { e };
        let o1 = if bit64(e1, i - 1) { o | (1u64 << (i as u64)) } else { o };
        eo_iter(e1, o1, i + 1, hi)
    }
}

/// The bits agree with parity on `0..=m` and are clear above `m`.
pub open spec fn parity_upto(e: u64, o: u64, m: int) -> bool {
    &&& forall|i: int| #[trigger] bit64(e, i) == (0 <= i <= m && i % 2 == 0)
    &&& forall|i: int| #[trigger] bit64(o, i) == (0 <= i <= m && i % 2 == 1)
}

impl EvenOddTensorChirho {
    /// Nothing computed.
    pub fn new_chirho() -> (r: Self)
        ensures
            r.even_bits_chirho == 0,
            r.odd_bits_chirho == 0,
            r.max_computed_chirho == 0,
    {
        Self { even_bits_chirho: 0, odd_bits_chirho: 0, max_computed_chirho: 0 }
    }

    /// Extend the bit sets up to `n` (at most 63); `0` is always marked even.
    pub fn compute_up_to_chirho(&mut self, n_chirho: u32)
        ensures
            final(self).even_bits_chirho & 1 == 1,
            n_chirho <= old(self).max_computed_chirho ==> {
                &&& final(self).even_bits_chirho == old(self).even_bits_chirho | 1
                &&& final(self).odd_bits_chirho == old(self).odd_bits_chirho
                &&& final(self).max_computed_chirho == old(self).max_computed_chirho
            },
            n_chirho > old(self).max_computed_chirho ==> {
                let top = if n_chirho < 63 { n_chirho as int } else { 63 };
                &&& (final(self).even_bits_chirho, final(self).odd_bits_chirho) == eo_iter(
                    old(self).even_bits_chirho | 1,
                    old(self).odd_bits_chirho,
                    old(self).max_computed_chirho + 1,
                    top,
                )
                &&& final(self).max_computed_chirho == top
            },
    {
        let e_old = self.even_bits_chirho;
        self.even_bits_chirho = self.even_bits_chirho | 1;
        proof {
            assert((e_old | 1u64) & 1u64 == 1u64) by (bit_vector);
        }
        if n_chirho <= self.max_computed_chirho {
            return;
        }
        let top: u32 = if n_chirho < 63 { n_chirho } else { 63 };
        let ghost e0 = self.even_bits_chirho;
        let ghost o0 = self.odd_bits_chirho;
        let ghost start = self.max_computed_chirho + 1;
        let mut i: u32 = self.max_computed_chirho + 1;
        proof {
            assert(eo_iter(e0, o0, start, top as int) == eo_iter(self.even_bits_chirho, self.odd_bits_chirho, i as int, top as int));
        }
        while i <= top
            invariant
                1 <= i,
                top <= 63,
                i <= top + 1 || i == start,
                eo_iter(e0, o0, start, top as int) == eo_iter(self.even_bits_chirho, self.odd_bits_chirho, i as int, top as int),
                n_chirho > old(self).max_computed_chirho,
                self.even_bits_chirho & 1 == 1,
            decreases top + 1 - i,
        {
            let prev = i - 1;
            proof {
                lemma_mask_test(self.odd_bits_chirho, prev as u64);
            }
            if self.odd_bits_chirho & (1u64 << prev) != 0 {
                let e = self.even_bits_chirho;
                let m = 1u64 << i;
                proof {
                    assert(e & 1u64 == 1u64 ==> (e | m) & 1u64 == 1u64) by (bit_vector);
                }
                self.even_bits_chirho = e | m;
            }
            proof {
                lemma_mask_test(self.even_bits_chirho, prev as u64);
            }
            if self.even_bits_chirho & (1u64 << prev) != 0 {
                self.odd_bits_chirho = self.odd_bits_chirho | (1u64 << i);
            }
            i = i + 1;
        }
        self.max_computed_chirho = top;
    }

    /// Is `n` even (by the bit set below 64, by arithmetic above)?
    pub fn is_even_chirho(&self, n_chirho: u32) -> (r: bool)
        ensures
            r == if n_chirho >= 64 { n_chirho % 2 == 0 } else { bit64(self.even_bits_chirho, n_chirho as int) },
    {
        if n_chirho >= 64 {
            return n_chirho % 2 == 0;
        }
        proof {
            lemma_mask_test(self.even_bits_chirho, n_chirho as u64);
        }
        (self.even_bits_chirho >> n_chirho) & 1 == 1
    }

    /// Is `n` odd (by the bit set below 64, by arithmetic above)?
    pub fn is_odd_chirho(&self, n_chirho: u32) -> (r: bool)
        ensures
            r == if n_chirho >= 64 { n_chirho % 2 == 1 } else { bit64(self.odd_bits_chirho, n_chirho as int) },
    {
        if n_chirho >= 64 {
            return n_chirho % 2 == 1;
        }
        (self.odd_bits_chirho >> n_chirho) & 1 == 1
    }
}

impl Default for EvenOddTensorChirho {
    fn default() -> (r: Self)
        ensures
            r.even_bits_chirho == 0,
            r.odd_bits_chirho == 0,
            r.max_computed_chirho == 0,
    {
        Self::new_chirho()
    }
}

/// The recurrence extends parity bit sets: from bits that agree with parity
/// up to `i - 1`, running it up to `hi` gives bits that agree up to `hi`.
pub proof fn lemma_eo_parity(e: u64, o: u64, i: int, hi: int)
    requires
        1 <= i <= hi + 1,
        hi <= 63,
        parity_upto(e, o, i - 1),
    ensures
        parity_upto(eo_iter(e, o, i, hi).0, eo_iter(e, o, i, hi).1, hi),
    decreases hi - i + 1,
{
    if i <= hi {
        let e1 = if bit64(o, i - 1) { e | (1u64 << (i as u64)) } else { e };
        let o1 = if bit64(e1, i - 1) { o | (1u64 << (i as u64)) } else { o };
        assert(bit64(o, i - 1) == ((i - 1) % 2 == 1));
        assert forall|j: int| #[trigger] bit64(e1, j) == (0 <= j <= i && j % 2 == 0) by {
            lemma_or_bits(e, 1u64 << (i as u64), j);
            lemma_shl_bits(i as u64, j);
        }
        assert forall|j: int| #[trigger] bit64(o1, j) == (0 <= j <= i && j % 2 == 1) by {
            lemma_or_bits(o, 1u64 << (i as u64), j);
            lemma_shl_bits(i as u64, j);
            assert(bit64(e1, i - 1) == ((i - 1) % 2 == 0));
        }
        lemma_eo_parity(e1, o1, i + 1, hi);
    }
}

/// The starting bits (zero, with `0` marked even) agree with parity up to 0.
pub proof fn lemma_eo_start()
    ensures
        parity_upto(0u64 | 1, 0u64, 0),
{
    assert((0u64 | 1u64) == 1u64) by (bit_vector);
    assert(1u64 << 0u64 == 1u64) by (bit_vector);
    lemma_zero_iff_no_bits(0);
    assert forall|j: int| #[trigger] bit64(0u64 | 1, j) == (0 <= j <= 0 && j % 2 == 0) by {
        lemma_shl_bits(0, j);
    }
}

/// What `is_even_chirho` (`even == true`) or `is_odd_chirho` reports for `v`.
pub open spec fn parity_at(t: EvenOddTensorChirho, even: bool, v: u32) -> bool {
    if even {
        if v >= 64 { v % 2 == 0 } else { bit64(t.even_bits_chirho, v as int) }
    } else {
        if v >= 64 { v % 2 == 1 } else { bit64(t.odd_bits_chirho, v as int) }
    }
}

/// The values below `k` reported even (resp. odd), in increasing order.
pub open spec fn parity_list(t: EvenOddTensorChirho, even: bool, k: int) -> Seq<u32>
    decreases k,
{
    if k <= 0 {
        Seq::empty()
    } else if parity_at(t, even, (k - 1) as u32) {
        parity_list(t, even, k - 1).push((k - 1) as u32)
    } else {
        parity_list(t, even, k - 1)
    }
}

impl EvenOddTensorChirho {
    fn list_chirho(&self, even: bool) -> (r: Vec<u32>)
        ensures
            r@ == parity_list(*self, even, self.max_computed_chirho as int + 1),
    {
        let mut out: Vec<u32> = Vec::new();
        let mut v: u64 = 0;
        while v <= self.max_computed_chirho as u64
            invariant
                v <= self.max_computed_chirho as u64 + 1,
                out@ == parity_list(*self, even, v as int),
            decreases self.max_computed_chirho as u64 + 1 - v,
        {
            let w = v as u32;
            let keep = if even { self.is_even_chirho(w) } else { self.is_odd_chirho(w) };
            if keep {
                out.push(w);
            }
            v = v + 1;
        }
        out
    }

    /// The numbers `0..=max_computed` reported even, in increasing order.
    pub fn get_evens_chirho(&self) -> (r: Vec<u32>)
        ensures
            r@ == parity_list(*self, true, self.max_computed_chirho as int + 1),
    {
        self.list_chirho(true)
    }

    /// The numbers `0..=max_computed` reported odd, in increasing order.
    pub fn get_odds_chirho(&self) -> (r: Vec<u32>)
        ensures
            r@ == parity_list(*self, false, self.max_computed_chirho as int + 1),
    {
        self.list_chirho(false)
    }
}

/// Status of a subgoal.
#[derive(Debug, Clone, Copy, PartialEq, Eq, Structural)]
pub enum GoalStatusChirho {
    /// Still collecting answers.
    IncompleteChirho,
    /// All answers found.
    CompleteChirho,
}

/// A goal pattern: relation id and argument ids.
pub type GoalPatternChirho = (u32, Vec<u32>);

/// A pattern as plain values.
pub open spec fn pkey(p: GoalPatternChirho) -> (u32, Seq<u32>) {
    (p.0, p.1@)
}

/// Patterns as plain values.
pub open spec fn pkeys(v: Seq<GoalPatternChirho>) -> Seq<(u32, Seq<u32>)> {
    v.map_values(|p: GoalPatternChirho| pkey(p))
}

/// A subgoal of the table.
#[derive(Debug)]
pub struct SlgGoalChirho {
    /// Its pattern.
    pub pattern_chirho: GoalPatternChirho,
    /// Answers collected (each a tuple of term ids, each once).
    pub answers_chirho: Vec<Vec<u32>>,
    /// Patterns this goal depends on (each once).
    pub depends_on_chirho: Vec<GoalPatternChirho>,
    /// Patterns that depend on this goal (each once).
    pub depended_by_chirho: Vec<GoalPatternChirho>,
    /// Status.
    pub status_chirho: GoalStatusChirho,
    /// Strongly connected component, once computed.
    pub scc_id_chirho: Option<usize>,
}

/// The answers of a goal.
pub open spec fn answers_of(g: SlgGoalChirho) -> Set<Seq<u32>> {
    g.answers_chirho@.map_values(|a: Vec<u32>| a@).to_set()
}

/// The patterns a goal depends on.
pub open spec fn deps_of(g: SlgGoalChirho) -> Set<(u32, Seq<u32>)> {
    pkeys(g.depends_on_chirho@).to_set()
}

/// The patterns that depend on a goal.
pub open spec fn dby_of(g: SlgGoalChirho) -> Set<(u32, Seq<u32>)> {
    pkeys(g.depended_by_chirho@).to_set()
}

/// A fresh goal for the pattern: no answer, no dependency, incomplete.
pub open spec fn fresh_goal(g: SlgGoalChirho, k: (u32, Seq<u32>)) -> bool {
    &&& pkey(g.pattern_chirho) == k
    &&& g.answers_chirho@.len() == 0
    &&& g.depends_on_chirho@.len() == 0
    &&& g.depended_by_chirho@.len() == 0
    &&& g.status_chirho == GoalStatusChirho::IncompleteChirho
    &&& g.scc_id_chirho is None
}

fn copy_ids_chirho(v: &Vec<u32>) -> (r: Vec<u32>)
    ensures
        r@ == v@,
{
    let mut out: Vec<u32> = Vec::new();
    let mut i: usize = 0;
    while i < v.len()
        invariant
            i <= v.len(),
            out@ == v@.take(i as int),
        decreases v.len() - i,
    {
        out.push(v[i]);
        proof {
            assert(out@ =~= v@.take(i + 1));
        }
        i = i + 1;
    }
    proof {
        assert(v@.take(v.len() as int) =~= v@);
    }
    out
}

fn copy_pattern_chirho(p: &GoalPatternChirho) -> (r: GoalPatternChirho)
    ensures
        pkey(r) == pkey(*p),
{
    (p.0, copy_ids_chirho(&p.1))
}

fn ids_eq_chirho(a: &Vec<u32>, b: &Vec<u32>) -> (r: bool)
    ensures
        r == (a@ == b@),
{
    if a.len() != b.len() {
        return false;
    }
    let mut i: usize = 0;
    while i < a.len()
        invariant
            a.len() == b.len(),
            i <= a.len(),
            forall|t: int| 0 <= t < i ==> a@[t] == b@[t],
        decreases a.len() - i,
    {
        if a[i] != b[i] {
            return false;
        }
        i = i + 1;
    }
    proof {
        assert(a@ =~= b@);
    }
    true
}

fn pattern_eq_chirho(a: &GoalPatternChirho, b: &GoalPatternChirho) -> (r: bool)
    ensures
        r == (pkey(*a) == pkey(*b)),
{
    a.0 == b.0 && ids_eq_chirho(&a.1, &b.1)
}

/// Position of the pattern in a list, if it is there.
fn find_pattern_chirho(v: &Vec<GoalPatternChirho>, p: &GoalPatternChirho) -> (r: Option<usize>)
    ensures
        r matches Some(i) ==> i < v.len() && pkey(v@[i as int]) == pkey(*p),
        r is None ==> !pkeys(v@).contains(pkey(*p)),
{
    let mut i: usize = 0;
    while i < v.len()
        invariant
            i <= v.len(),
            forall|t: int| 0 <= t < i ==> pkey(#[trigger] v@[t]) != pkey(*p),
        decreases v.len() - i,
    {
        if pattern_eq_chirho(&v[i], p) {
            return Some(i);
        }
        i = i + 1;
    }
    proof {
        if pkeys(v@).contains(pkey(*p)) {
            let t = choose|t: int| 0 <= t < pkeys(v@).len() && pkeys(v@)[t] == pkey(*p);
            assert(pkey(v@[t]) == pkey(*p));
        }
    }
    None
}

/// Add a pattern to a list unless it is there.
fn insert_pattern_chirho(v: &mut Vec<GoalPatternChirho>, p: &GoalPatternChirho)
    ensures
        pkeys(final(v)@).to_set() == pkeys(old(v)@).to_set().insert(pkey(*p)),
        pkeys(old(v)@).no_duplicates() ==> pkeys(final(v)@).no_duplicates(),
{
    match find_pattern_chirho(v, p) {
        None => {
            let ghost v0 = v@;
            v.push(copy_pattern_chirho(p));
            proof {
                assert(pkeys(v@) =~= pkeys(v0).push(pkey(*p)));
                pkeys(v0).lemma_push_to_set_commute(pkey(*p));
            }
        },
        Some(i) => {
            proof {
                assert(pkeys(v@)[i as int] == pkey(*p));
                assert(pkeys(v@).to_set().contains(pkey(*p)));
                assert(pkeys(v@).to_set() =~= pkeys(v@).to_set().insert(pkey(*p)));
            }
        },
    }
}

impl SlgGoalChirho {
    /// A fresh goal for the pattern.
    pub fn new_chirho(pattern_chirho: GoalPatternChirho) -> (r: Self)
        ensures
            fresh_goal(r, pkey(pattern_chirho)),
    {
        Self {
            pattern_chirho,
            answers_chirho: Vec::new(),
            depends_on_chirho: Vec::new(),
            depended_by_chirho: Vec::new(),
            status_chirho: GoalStatusChirho::IncompleteChirho,
            scc_id_chirho: None,
        }
    }
}


/// The answers of a goal have no duplicates, nor have its dependency lists.
pub open spec fn goal_lists_wf(g: SlgGoalChirho) -> bool {
    &&& g.answers_chirho@.map_values(|a: Vec<u32>| a@).no_duplicates()
    &&& pkeys(g.depends_on_chirho@).no_duplicates()
    &&& pkeys(g.depended_by_chirho@).no_duplicates()
}

/// A key sequence with `k` appended unless it is present.
pub open spec fn add_key(s: Seq<(u32, Seq<u32>)>, k: (u32, Seq<u32>)) -> Seq<(u32, Seq<u32>)> {
    if s.contains(k) {
        s
    } else {
        s.push(k)
    }
}

/// How one goal changes when a dependency is recorded: an existing goal gains the
/// added dependency keys; a new goal starts fresh with only them.
pub open spec fn dep_step(
    old_g: Option<SlgGoalChirho>,
    new_g: SlgGoalChirho,
    k: (u32, Seq<u32>),
    add_dep: Set<(u32, Seq<u32>)>,
    add_dby: Set<(u32, Seq<u32>)>,
) -> bool {
    &&& pkey(new_g.pattern_chirho) == k
    &&& match old_g {
        Some(g) => {
            &&& pkey(g.pattern_chirho) == k
            &&& new_g.answers_chirho@ == g.answers_chirho@
            &&& new_g.status_chirho == g.status_chirho
            &&& new_g.scc_id_chirho == g.scc_id_chirho
            &&& deps_of(new_g) == deps_of(g).union(add_dep)
            &&& dby_of(new_g) == dby_of(g).union(add_dby)
        },
        None => {
            &&& new_g.answers_chirho@.len() == 0
            &&& new_g.status_chirho == GoalStatusChirho::IncompleteChirho
            &&& new_g.scc_id_chirho is None
            &&& deps_of(new_g) == add_dep
            &&& dby_of(new_g) == add_dby
        },
    }
}

/// The table of subgoals, each pattern once, with the components of the
/// dependency graph once they are computed.
#[derive(Debug)]
pub struct SlgTableChirho {
    goals_chirho: Vec<SlgGoalChirho>,
    sccs_chirho: Vec<Vec<GoalPatternChirho>>,
}

impl SlgTableChirho {
    /// The goals, in the order they were created.
    pub closed spec fn goals_m(&self) -> Seq<SlgGoalChirho> {
        self.goals_chirho@
    }

    /// The computed components, each as its patterns.
    pub closed spec fn sccs_m(&self) -> Seq<Seq<(u32, Seq<u32>)>> {
        self.sccs_chirho@.map_values(|c: Vec<GoalPatternChirho>| pkeys(c@))
    }

    /// The patterns of the goals, in order.
    pub open spec fn keys(&self) -> Seq<(u32, Seq<u32>)> {
        self.goals_m().map_values(|g: SlgGoalChirho| pkey(g.pattern_chirho))
    }

    /// The goal with the given pattern (meaningful when present).
    pub open spec fn goal_of(&self, k: (u32, Seq<u32>)) -> SlgGoalChirho {
        self.goals_m()[self.keys().index_of(k)]
    }

    /// Goal `i` depends on goal `j`.
    pub open spec fn dep_edge(&self, i: int, j: int) -> bool {
        &&& 0 <= i < self.goals_m().len()
        &&& 0 <= j < self.goals_m().len()
        &&& deps_of(self.goals_m()[i]).contains(self.keys()[j])
    }

    /// Well-formed: each pattern once, every recorded dependency between goals of
    /// the table, and the two directions of each dependency recorded together.
    pub open spec fn wf(&self) -> bool {
        &&& self.keys().no_duplicates()
        &&& forall|i: int| 0 <= i < self.goals_m().len() ==> goal_lists_wf(#[trigger] self.goals_m()[i])
        &&& forall|i: int, k: (u32, Seq<u32>)|
            0 <= i < self.goals_m().len() && #[trigger] deps_of(self.goals_m()[i]).contains(k)
                ==> self.keys().contains(k)
        &&& forall|i: int, k: (u32, Seq<u32>)|
            0 <= i < self.goals_m().len() && #[trigger] dby_of(self.goals_m()[i]).contains(k)
                ==> self.keys().contains(k)
        &&& forall|i: int, j: int|
            0 <= i < self.goals_m().len() && 0 <= j < self.goals_m().len() ==> (
            #[trigger] deps_of(self.goals_m()[i]).contains(self.keys()[j])
                <==> #[trigger] dby_of(self.goals_m()[j]).contains(self.keys()[i]))
    }

    /// An empty table.
    pub fn new_chirho() -> (r: Self)
        ensures
            r.wf(),
            r.goals_m().len() == 0,
            r.sccs_m().len() == 0,
    {
        let r = Self { goals_chirho: Vec::new(), sccs_chirho: Vec::new() };
        proof {
            assert(r.keys() =~= Seq::<(u32, Seq<u32>)>::empty());
        }
        r
    }

    /// Number of goals.
    pub fn num_goals_chirho(&self) -> (r: usize)
        ensures
            r == self.goals_m().len(),
    {
        self.goals_chirho.len()
    }

    /// Number of computed components.
    pub fn num_sccs_chirho(&self) -> (r: usize)
        ensures
            r == self.sccs_m().len(),
    {
        self.sccs_chirho.len()
    }

    /// Position of the goal with the pattern, if there is one.
    fn index_of_chirho(&self, p: &GoalPatternChirho) -> (r: Option<usize>)
        requires
            self.wf(),
        ensures
            r matches Some(i) ==> i < self.goals_m().len() && self.keys()[i as int] == pkey(*p)
                && self.keys().index_of(pkey(*p)) == i,
            r is None <==> !self.keys().contains(pkey(*p)),
    {
        let mut i: usize = 0;
        while i < self.goals_chirho.len()
            invariant
                self.wf(),
                i <= self.goals_m().len(),
                forall|t: int| 0 <= t < i ==> self.keys()[t] != pkey(*p),
            decreases self.goals_m().len() - i,
        {
            if pattern_eq_chirho(&self.goals_chirho[i].pattern_chirho, p) {
                proof {
                    assert(self.keys()[i as int] == pkey(*p));
                    let j = self.keys().index_of(pkey(*p));
                    assert(self.keys()[j] == pkey(*p));
                }
                return Some(i);
            }
            i = i + 1;
        }
        proof {
            if self.keys().contains(pkey(*p)) {
                let t = choose|t: int| 0 <= t < self.keys().len() && self.keys()[t] == pkey(*p);
                assert(self.keys()[t] != pkey(*p));
            }
        }
        None
    }

    /// Make sure a goal with the pattern exists; its position, and whether it is new.
    fn ensure_goal_chirho(&mut self, p: &GoalPatternChirho) -> (r: (usize, bool))
        requires
            old(self).wf(),
        ensures
            final(self).wf(),
            r.1 == !old(self).keys().contains(pkey(*p)),
            final(self).keys() == add_key(old(self).keys(), pkey(*p)),
            r.0 < final(self).goals_m().len(),
            final(self).keys()[r.0 as int] == pkey(*p),
            final(self).keys().index_of(pkey(*p)) == r.0,
            r.1 ==> final(self).goals_m() =~= old(self).goals_m().push(final(self).goals_m()[r.0 as int])
                && r.0 == old(self).goals_m().len()
                && fresh_goal(final(self).goals_m()[r.0 as int], pkey(*p)),
            !r.1 ==> final(self).goals_m() == old(self).goals_m(),
            final(self).sccs_m() == old(self).sccs_m(),
    {
        match self.index_of_chirho(p) {
            Some(i) => (i, false),
            None => {
                let ghost old_goals = self.goals_m();
                let ghost old_keys = self.keys();
                let g = SlgGoalChirho::new_chirho(copy_pattern_chirho(p));
                self.goals_chirho.push(g);
                let n = self.goals_chirho.len() - 1;
                proof {
                    let k = pkey(*p);
                    assert(self.goals_m() =~= old_goals.push(g));
                    assert(self.keys() =~= old_keys.push(k));
                    assert(self.keys()[n as int] == k);
                    assert(g.answers_chirho@.map_values(|a: Vec<u32>| a@) =~= Seq::<Seq<u32>>::empty());
                    assert(pkeys(g.depends_on_chirho@) =~= Seq::<(u32, Seq<u32>)>::empty());
                    assert(pkeys(g.depended_by_chirho@) =~= Seq::<(u32, Seq<u32>)>::empty());
                    assert(deps_of(g) =~= Set::<(u32, Seq<u32>)>::empty());
                    assert(dby_of(g) =~= Set::<(u32, Seq<u32>)>::empty());
                    assert forall|i: int, kk: (u32, Seq<u32>)|
                        0 <= i < self.goals_m().len() && #[trigger] deps_of(self.goals_m()[i]).contains(kk)
                            implies self.keys().contains(kk) by {
                        if i < old_goals.len() {
                            assert(old_keys.contains(kk));
                            let t = choose|t: int| 0 <= t < old_keys.len() && old_keys[t] == kk;
                            assert(self.keys()[t] == kk);
                        }
                    }
                    assert forall|i: int, kk: (u32, Seq<u32>)|
                        0 <= i < self.goals_m().len() && #[trigger] dby_of(self.goals_m()[i]).contains(kk)
                            implies self.keys().contains(kk) by {
                        if i < old_goals.len() {
                            assert(old_keys.contains(kk));
                            let t = choose|t: int| 0 <= t < old_keys.len() && old_keys[t] == kk;
                            assert(self.keys()[t] == kk);
                        }
                    }
                    assert forall|i: int, j: int|
                        0 <= i < self.goals_m().len() && 0 <= j < self.goals_m().len() implies (
                        #[trigger] deps_of(self.goals_m()[i]).contains(self.keys()[j])
                            <==> #[trigger] dby_of(self.goals_m()[j]).contains(self.keys()[i])) by {
                        if i < old_goals.len() && j == n {
                            if deps_of(old_goals[i]).contains(k) {
                                assert(old_keys.contains(k));
                            }
                        }
                        if j < old_goals.len() && i == n {
                            if dby_of(old_goals[j]).contains(k) {
                                assert(old_keys.contains(k));
                            }
                        }
                    }
                    assert forall|a: int, b: int|
                        0 <= a < self.keys().len() && 0 <= b < self.keys().len() && a != b
                            implies self.keys()[a] != self.keys()[b] by {
                        if a == n {
                            assert(old_keys[b] == self.keys()[b]);
                        }
                        if b == n {
                            assert(old_keys[a] == self.keys()[a]);
                        }
                    }
                    assert(forall|i: int| 0 <= i < self.goals_m().len() ==> goal_lists_wf(#[trigger] self.goals_m()[i]));
                    assert(self.keys().index_of(k) == n) by {
                        let j = self.keys().index_of(k);
                        assert(self.keys()[n as int] == k);
                    }
                }
                (n, true)
            },
        }
    }

    /// The goal with the pattern, created fresh if there was none; and whether it is new.
    pub fn get_or_create_chirho(&mut self, pattern_chirho: GoalPatternChirho) -> (r: (
        &mut SlgGoalChirho,
        bool,
    ))
        requires
            old(self).wf(),
        ensures
            r.1 == !old(self).keys().contains(pkey(pattern_chirho)),
            r.1 ==> fresh_goal(*r.0, pkey(pattern_chirho)),
            !r.1 ==> *r.0 == old(self).goal_of(pkey(pattern_chirho)),
            final(self).goals_m() == (if r.1 {
                old(self).goals_m().push(*r.0)
            } else {
                old(self).goals_m()
            }).update(
                if r.1 {
                    old(self).goals_m().len() as int
                } else {
                    old(self).keys().index_of(pkey(pattern_chirho))
                },
                *final(r.0),
            ),
            final(self).sccs_m() == old(self).sccs_m(),
    {
        let (i, is_new) = self.ensure_goal_chirho(&pattern_chirho);
        (&mut self.goals_chirho[i], is_new)
    }

    /// Record an answer for the goal with the pattern; true when it is new there.
    pub fn add_answer_chirho(&mut self, pattern_chirho: &GoalPatternChirho, answer_chirho: Vec<u32>) -> (r: bool)
        requires
            old(self).wf(),
        ensures
            final(self).wf(),
            r == (old(self).keys().contains(pkey(*pattern_chirho)) && !answers_of(
                old(self).goal_of(pkey(*pattern_chirho)),
            ).contains(answer_chirho@)),
            final(self).goals_m().len() == old(self).goals_m().len(),
            forall|i: int|
                0 <= i < old(self).goals_m().len() ==> same_but_answers(
                    old(self).goals_m()[i],
                    #[trigger] final(self).goals_m()[i],
                ) && final(self).goals_m()[i].answers_chirho@ == if r && old(self).keys()[i] == pkey(
                    *pattern_chirho,
                ) {
                    old(self).goals_m()[i].answers_chirho@.push(answer_chirho)
                } else {
                    old(self).goals_m()[i].answers_chirho@
                },
            final(self).keys() == old(self).keys(),
            final(self).sccs_m() == old(self).sccs_m(),
    {
        match self.index_of_chirho(pattern_chirho) {
            None => false,
            Some(i) => {
                let ghost k = pkey(*pattern_chirho);
                let ghost old_goals = self.goals_m();
                let ghost old_keys = self.keys();
                let mut t: usize = 0;
                let n = self.goals_chirho[i].answers_chirho.len();
                while t < n
                    invariant
                        self.wf(),
                        self.goals_m() == old_goals,
                        self.keys() == old_keys,
                        k == pkey(*pattern_chirho),
                        old_keys.index_of(k) == i,
                        i < self.goals_m().len(),
                        n == self.goals_m()[i as int].answers_chirho@.len(),
                        t <= n,
                        forall|u: int|
                            0 <= u < t ==> self.goals_m()[i as int].answers_chirho@[u]@ != answer_chirho@,
                    decreases n - t,
                {
                    if ids_eq_chirho(&self.goals_chirho[i].answers_chirho[t], &answer_chirho) {
                        proof {
                            let g = self.goals_m()[i as int];
                            assert(g.answers_chirho@.map_values(|a: Vec<u32>| a@)[t as int] == answer_chirho@);
                            assert(answers_of(g).contains(answer_chirho@));
                        }
                        return false;
                    }
                    t = t + 1;
                }
                let ghost g0 = self.goals_m()[i as int];
                proof {
                    assert(!answers_of(g0).contains(answer_chirho@)) by {
                        if answers_of(g0).contains(answer_chirho@) {
                            let vs = g0.answers_chirho@.map_values(|a: Vec<u32>| a@);
                            let u = choose|u: int| 0 <= u < vs.len() && vs[u] == answer_chirho@;
                            assert(g0.answers_chirho@[u]@ == answer_chirho@);
                        }
                    }
                }
                let ghost a = answer_chirho;
                self.goals_chirho[i].answers_chirho.push(answer_chirho);
                proof {
                    let g1 = self.goals_m()[i as int];
                    assert(g1.answers_chirho@ == g0.answers_chirho@.push(a));
                    assert(self.goals_m() == old_goals.update(i as int, g1));
                    assert(self.keys() =~= old_keys);
                    assert(g1.answers_chirho@.map_values(|x: Vec<u32>| x@) =~= g0.answers_chirho@.map_values(
                        |x: Vec<u32>| x@,
                    ).push(a@));
                    assert(goal_lists_wf(g1));
                    assert(deps_of(g1) == deps_of(g0));
                    assert(dby_of(g1) == dby_of(g0));
                    assert(forall|j: int| 0 <= j < self.goals_m().len() ==> goal_lists_wf(#[trigger] self.goals_m()[j]));
                }
                true
            },
        }
    }

    /// The answers of the goal with the pattern (none when there is no such goal).
    pub fn get_answers_chirho(&self, pattern_chirho: &GoalPatternChirho) -> (r: Vec<Vec<u32>>)
        requires
            self.wf(),
        ensures
            r@.map_values(|a: Vec<u32>| a@) == if self.keys().contains(pkey(*pattern_chirho)) {
                self.goal_of(pkey(*pattern_chirho)).answers_chirho@.map_values(|a: Vec<u32>| a@)
            } else {
                Seq::empty()
            },
    {
        let mut out: Vec<Vec<u32>> = Vec::new();
        match self.index_of_chirho(pattern_chirho) {
            None => {
                proof {
                    assert(out@.map_values(|a: Vec<u32>| a@) =~= Seq::<Seq<u32>>::empty());
                }
                out
            },
            Some(i) => {
                let ghost src = self.goals_m()[i as int].answers_chirho@.map_values(|a: Vec<u32>| a@);
                let mut t: usize = 0;
                while t < self.goals_chirho[i].answers_chirho.len()
                    invariant
                        i < self.goals_m().len(),
                        src == self.goals_m()[i as int].answers_chirho@.map_values(|a: Vec<u32>| a@),
                        t <= src.len(),
                        out@.map_values(|a: Vec<u32>| a@) == src.take(t as int),
                    decreases src.len() - t,
                {
                    let c = copy_ids_chirho(&self.goals_chirho[i].answers_chirho[t]);
                    proof {
                        assert(c@ == src[t as int]);
                    }
                    let ghost prev = out@;
                    out.push(c);
                    proof {
                        assert(out@.map_values(|a: Vec<u32>| a@) =~= prev.map_values(|a: Vec<u32>| a@).push(c@));
                        assert(out@.map_values(|a: Vec<u32>| a@) =~= src.take(t + 1));
                    }
                    t = t + 1;
                }
                proof {
                    assert(src.take(src.len() as int) =~= src);
                }
                out
            },
        }
    }

    /// Whether the goal with the pattern exists and is complete.
    pub fn is_complete_chirho(&self, pattern_chirho: &GoalPatternChirho) -> (r: bool)
        requires
            self.wf(),
        ensures
            r == (self.keys().contains(pkey(*pattern_chirho)) && self.goal_of(pkey(*pattern_chirho)).status_chirho
                == GoalStatusChirho::CompleteChirho),
    {
        match self.index_of_chirho(pattern_chirho) {
            None => false,
            Some(i) => self.goals_chirho[i].status_chirho == GoalStatusChirho::CompleteChirho,
        }
    }
}

impl SlgTableChirho {
    /// Record that the goal `from` depends on the goal `to`, creating either if
    /// needed; a goal depending on itself records nothing.
    pub fn add_dependency_chirho(
        &mut self,
        from_pattern_chirho: GoalPatternChirho,
        to_pattern_chirho: GoalPatternChirho,
    )
        requires
            old(self).wf(),
        ensures
            final(self).wf(),
            final(self).sccs_m() == old(self).sccs_m(),
            pkey(from_pattern_chirho) == pkey(to_pattern_chirho) ==> final(self).goals_m() == old(self).goals_m(),
            pkey(from_pattern_chirho) != pkey(to_pattern_chirho) ==> {
                &&& final(self).keys() == add_key(
                    add_key(old(self).keys(), pkey(from_pattern_chirho)),
                    pkey(to_pattern_chirho),
                )
                &&& forall|i: int|
                    0 <= i < final(self).goals_m().len() ==> dep_step(
                        if i < old(self).goals_m().len() {
                            Some(old(self).goals_m()[i])
                        } else {
                            None
                        },
                        #[trigger] final(self).goals_m()[i],
                        final(self).keys()[i],
                        if final(self).keys()[i] == pkey(from_pattern_chirho) {
                            set![pkey(to_pattern_chirho)]
                        } else {
                            Set::empty()
                        },
                        if final(self).keys()[i] == pkey(to_pattern_chirho) {
                            set![pkey(from_pattern_chirho)]
                        } else {
                            Set::empty()
                        },
                    )
            },
    {
        if pattern_eq_chirho(&from_pattern_chirho, &to_pattern_chirho) {
            return;
        }
        let ghost k1 = pkey(from_pattern_chirho);
        let ghost k2 = pkey(to_pattern_chirho);
        let ghost g_old = self.goals_m();
        let ghost keys_old = self.keys();
        let (i, new_i) = self.ensure_goal_chirho(&from_pattern_chirho);
        let ghost g_a = self.goals_m();
        let ghost keys_a = self.keys();
        let (j, new_j) = self.ensure_goal_chirho(&to_pattern_chirho);
        let ghost g_b = self.goals_m();
        let ghost keys_b = self.keys();
        proof {
            assert(keys_b[i as int] == k1) by {
                assert(g_b[i as int] == g_a[i as int]);
            }
            assert(i != j);
        }
        let ghost gi0 = self.goals_m()[i as int];
        insert_pattern_chirho(&mut self.goals_chirho[i].depends_on_chirho, &to_pattern_chirho);
        let ghost gi1 = self.goals_m()[i as int];
        let ghost g_c = self.goals_m();
        proof {
            assert(g_c == g_b.update(i as int, gi1));
        }
        let ghost gj0 = self.goals_m()[j as int];
        insert_pattern_chirho(&mut self.goals_chirho[j].depended_by_chirho, &from_pattern_chirho);
        let ghost gj1 = self.goals_m()[j as int];
        proof {
            let n = g_b.len();
            assert(self.goals_m() == g_c.update(j as int, gj1));
            assert(gj0 == g_b[j as int]);
            assert(gi0 == g_b[i as int]);
            assert(self.keys() =~= keys_b);
            assert(deps_of(gi1) == deps_of(gi0).insert(k2));
            assert(dby_of(gi1) == dby_of(gi0));
            assert(deps_of(gj1) == deps_of(gj0));
            assert(dby_of(gj1) == dby_of(gj0).insert(k1));
            assert(goal_lists_wf(gi1));
            assert(goal_lists_wf(gj1));
            assert(keys_b[j as int] == k2);
            assert(keys_b.contains(k1));
            assert(keys_b.contains(k2));
            // well-formedness of the new table
            assert forall|a: int| 0 <= a < n implies goal_lists_wf(#[trigger] self.goals_m()[a]) by {
                if a != i && a != j {
                    assert(self.goals_m()[a] == g_b[a]);
                }
            }
            assert forall|a: int, kk: (u32, Seq<u32>)|
                0 <= a < n && #[trigger] deps_of(self.goals_m()[a]).contains(kk) implies self.keys().contains(kk) by {
                if a != i {
                    assert(deps_of(g_b[a]).contains(kk));
                }
            }
            assert forall|a: int, kk: (u32, Seq<u32>)|
                0 <= a < n && #[trigger] dby_of(self.goals_m()[a]).contains(kk) implies self.keys().contains(kk) by {
                if a != j {
                    assert(dby_of(g_b[a]).contains(kk));
                }
            }
            assert forall|a: int, b: int| 0 <= a < n && 0 <= b < n implies (#[trigger] deps_of(
                self.goals_m()[a],
            ).contains(self.keys()[b]) <==> #[trigger] dby_of(self.goals_m()[b]).contains(
                self.keys()[a],
            )) by {
                assert(deps_of(g_b[a]).contains(keys_b[b]) <==> dby_of(g_b[b]).contains(keys_b[a]));
                if a == i && b != j {
                    assert(keys_b[b] != k2);
                }
                if b == j && a != i {
                    assert(keys_b[a] != k1);
                }
            }
            // relation to the table before the call
            assert forall|a: int| 0 <= a < n implies dep_step(
                if a < g_old.len() {
                    Some(g_old[a])
                } else {
                    None
                },
                #[trigger] self.goals_m()[a],
                self.keys()[a],
                if self.keys()[a] == k1 {
                    set![k2]
                } else {
                    Set::empty()
                },
                if self.keys()[a] == k2 {
                    set![k1]
                } else {
                    Set::empty()
                },
            ) by {
                if a < g_a.len() {
                    assert(g_b[a] == g_a[a]);
                }
                if a < g_old.len() {
                    assert(g_a[a] == g_old[a]);
                }
                if a == i {
                    assert(keys_b[a] != k2);
                    if a < g_old.len() {
                        assert(deps_of(gi0).union(set![k2]) =~= deps_of(gi0).insert(k2));
                        assert(dby_of(gi0).union(Set::empty()) =~= dby_of(gi0));
                    } else {
                        assert(new_i);
                        assert(fresh_goal(gi0, k1));
                        assert(pkeys(gi0.depends_on_chirho@) =~= Seq::<(u32, Seq<u32>)>::empty());
                        assert(pkeys(gi0.depended_by_chirho@) =~= Seq::<(u32, Seq<u32>)>::empty());
                        assert(deps_of(gi0) =~= Set::<(u32, Seq<u32>)>::empty());
                        assert(dby_of(gi0) =~= Set::<(u32, Seq<u32>)>::empty());
                        assert(deps_of(gi1) =~= set![k2]);
                        assert(dby_of(gi1) =~= Set::<(u32, Seq<u32>)>::empty());
                    }
                } else if a == j {
                    assert(keys_b[a] != k1);
                    if a < g_old.len() {
                        assert(deps_of(gj0).union(Set::empty()) =~= deps_of(gj0));
                        assert(dby_of(gj0).union(set![k1]) =~= dby_of(gj0).insert(k1));
                    } else {
                        assert(new_j);
                        assert(fresh_goal(gj0, k2));
                        assert(pkeys(gj0.depends_on_chirho@) =~= Seq::<(u32, Seq<u32>)>::empty());
                        assert(pkeys(gj0.depended_by_chirho@) =~= Seq::<(u32, Seq<u32>)>::empty());
                        assert(deps_of(gj0) =~= Set::<(u32, Seq<u32>)>::empty());
                        assert(dby_of(gj0) =~= Set::<(u32, Seq<u32>)>::empty());
                        assert(dby_of(gj1) =~= set![k1]);
                        assert(deps_of(gj1) =~= Set::<(u32, Seq<u32>)>::empty());
                    }
                } else {
                    assert(keys_b[a] != k1);
                    assert(keys_b[a] != k2);
                    assert(deps_of(g_b[a]).union(Set::empty()) =~= deps_of(g_b[a]));
                    assert(dby_of(g_b[a]).union(Set::empty()) =~= dby_of(g_b[a]));
                    if a >= g_old.len() {
                        if new_i {
                            assert(g_a.len() == g_old.len() + 1);
                        } else {
                            assert(g_a.len() == g_old.len());
                        }
                        assert(false);
                    }
                }
            }
        }
    }
}

/// Two goals agree on everything but their component number.
pub open spec fn same_but_scc(g1: SlgGoalChirho, g2: SlgGoalChirho) -> bool {
    &&& g1.pattern_chirho == g2.pattern_chirho
    &&& g1.answers_chirho == g2.answers_chirho
    &&& g1.depends_on_chirho == g2.depends_on_chirho
    &&& g1.depended_by_chirho == g2.depended_by_chirho
    &&& g1.status_chirho == g2.status_chirho
}

/// Two goals agree on everything but their status.
pub open spec fn same_but_status(g1: SlgGoalChirho, g2: SlgGoalChirho) -> bool {
    &&& g1.pattern_chirho == g2.pattern_chirho
    &&& g1.answers_chirho == g2.answers_chirho
    &&& g1.depends_on_chirho == g2.depends_on_chirho
    &&& g1.depended_by_chirho == g2.depended_by_chirho
    &&& g1.scc_id_chirho == g2.scc_id_chirho
}

impl SlgTableChirho {
    /// The dependency edges between goal positions.
    pub open spec fn edges(&self) -> spec_fn(int, int) -> bool {
        |a: int, b: int| self.dep_edge(a, b)
    }

    /// Goal `i` depends on goal `j`, directly or through other goals (or `i == j`).
    pub open spec fn reaches(&self, i: int, j: int) -> bool {
        reaches_via(self.edges(), i, j)
    }

    /// Goals `i` and `j` depend on each other: they are in one component.
    pub open spec fn mutual(&self, i: int, j: int) -> bool {
        mutual_via(self.edges(), i, j)
    }

    /// The component number of goal `i` (-1 when none is assigned).
    pub open spec fn scc_of(&self, i: int) -> int {
        match self.goals_m()[i].scc_id_chirho {
            Some(s) => s as int,
            None => -1,
        }
    }

    /// Some goal has component number `s`.
    pub open spec fn scc_used(&self, s: int) -> bool {
        exists|i: int| 0 <= i < self.goals_m().len() && self.scc_of(i) == s
    }

    /// Adjacency lists of the dependency graph, by goal position.
    fn adjacency_chirho(&self) -> (adj: Vec<Vec<usize>>)
        requires
            self.wf(),
        ensures
            adj.len() == self.goals_m().len(),
            adj_matches(adj@, self.edges()),
    {
        let n = self.goals_chirho.len();
        let mut adj: Vec<Vec<usize>> = Vec::new();
        let mut i: usize = 0;
        while i < n
            invariant
                self.wf(),
                n == self.goals_m().len(),
                i <= n,
                adj.len() == i,
                forall|a: int, t: int| 0 <= a < i && 0 <= t < adj@[a]@.len() ==> #[trigger] adj@[a]@[t] < n,
                forall|a: int, b: int|
                    0 <= a < i && 0 <= b < n ==> (self.dep_edge(a, b) <==> #[trigger] adj@[a]@.contains(b as usize)),
            decreases n - i,
        {
            let mut row: Vec<usize> = Vec::new();
            let ghost deps = self.goals_m()[i as int].depends_on_chirho@;
            let m = self.goals_chirho[i].depends_on_chirho.len();
            let mut t: usize = 0;
            while t < m
                invariant
                    self.wf(),
                    n == self.goals_m().len(),
                    i < n,
                    deps == self.goals_m()[i as int].depends_on_chirho@,
                    m == deps.len(),
                    t <= m,
                    forall|u: int| 0 <= u < row@.len() ==> #[trigger] row@[u] < n,
                    forall|b: int|
                        0 <= b < n ==> (#[trigger] row@.contains(b as usize) <==> pkeys(deps.take(t as int)).contains(
                            self.keys()[b],
                        )),
                decreases m - t,
            {
                let ghost before = row@;
                let k = self.index_of_chirho(&self.goals_chirho[i].depends_on_chirho[t]);
                proof {
                    assert(pkeys(deps.take(t + 1)) =~= pkeys(deps.take(t as int)).push(pkey(deps[t as int])));
                    assert(deps_of(self.goals_m()[i as int]).contains(pkey(deps[t as int]))) by {
                        assert(pkeys(deps)[t as int] == pkey(deps[t as int]));
                    }
                }
                match k {
                    Some(j) => {
                        row.push(j);
                        proof {
                            let kt = pkey(deps[t as int]);
                            let pp = pkeys(deps.take(t as int));
                            let qq = pkeys(deps.take(t + 1));
                            assert(row@ == before.push(j));
                            assert(qq == pp.push(kt));
                            assert forall|b: int|
                                0 <= b < n implies (#[trigger] row@.contains(b as usize) <==> qq.contains(
                                    self.keys()[b],
                                )) by {
                                let kb = self.keys()[b];
                                assert(row@.contains(b as usize) <==> (before.contains(b as usize) || b == j as int)) by {
                                    if row@.contains(b as usize) {
                                        let w = choose|w: int| 0 <= w < row@.len() && row@[w] == b as usize;
                                        if w < before.len() {
                                            assert(before[w] == b as usize);
                                        }
                                    }
                                    if before.contains(b as usize) {
                                        let w = choose|w: int| 0 <= w < before.len() && before[w] == b as usize;
                                        assert(row@[w] == b as usize);
                                    }
                                    if b == j as int {
                                        assert(row@[before.len() as int] == b as usize);
                                    }
                                }
                                assert(qq.contains(kb) <==> (pp.contains(kb) || kb == kt)) by {
                                    if qq.contains(kb) {
                                        let w = choose|w: int| 0 <= w < qq.len() && qq[w] == kb;
                                        if w < pp.len() {
                                            assert(pp[w] == kb);
                                        }
                                    }
                                    if pp.contains(kb) {
                                        let w = choose|w: int| 0 <= w < pp.len() && pp[w] == kb;
                                        assert(qq[w] == kb);
                                    }
                                    if kb == kt {
                                        assert(qq[pp.len() as int] == kb);
                                    }
                                }
                                assert(kb == kt <==> b == j as int);
                            }
                        }
                    },
                    None => {
                        proof {
                            assert(self.keys().contains(pkey(deps[t as int])));
                        }
                    },
                }
                t = t + 1;
            }
            proof {
                assert(deps.take(m as int) =~= deps);
                assert forall|b: int| 0 <= b < n implies (self.dep_edge(i as int, b) <==> #[trigger] row@.contains(
                    b as usize,
                )) by {
                    assert(deps_of(self.goals_m()[i as int]) == pkeys(deps).to_set());
                }
            }
            adj.push(row);
            proof {
                assert forall|a: int, b: int|
                    0 <= a < i + 1 && 0 <= b < n implies (self.dep_edge(a, b) <==> #[trigger] adj@[a]@.contains(
                        b as usize,
                    )) by {
                    if a < i {
                    }
                }
            }
            i = i + 1;
        }
        proof {
            let e = self.edges();
            assert forall|a: int, b: int| #[trigger] e(a, b) implies 0 <= a < adj@.len() && 0 <= b < adj@.len() by {
                assert(self.dep_edge(a, b));
            }
            assert forall|a: int, b: int|
                0 <= a < adj@.len() && 0 <= b < adj@.len() implies (#[trigger] e(a, b) <==> adj@[a]@.contains(
                    b as usize,
                )) by {
                assert(e(a, b) == self.dep_edge(a, b));
            }
        }
        adj
    }
}

impl SlgTableChirho {
    /// For every goal, the goals it reaches.
    fn reach_rows_chirho(&self, adj: &Vec<Vec<usize>>) -> (rows: Vec<Vec<bool>>)
        requires
            adj.len() == self.goals_m().len(),
            adj_matches(adj@, self.edges()),
        ensures
            rows_match(rows@, self.edges(), self.goals_m().len() as int),
    {
        let n = adj.len();
        let mut rows: Vec<Vec<bool>> = Vec::new();
        let mut i: usize = 0;
        while i < n
            invariant
                n == adj.len(),
                adj_matches(adj@, self.edges()),
                i <= n,
                rows.len() == i,
                forall|a: int| 0 <= a < i ==> (#[trigger] rows@[a]).len() == n,
                forall|a: int, j: int|
                    0 <= a < i && 0 <= j < n ==> (#[trigger] rows@[a]@[j] <==> reaches_via(self.edges(), a, j)),
            decreases n - i,
        {
            let row = reach_row_chirho(adj, Ghost(self.edges()), i);
            rows.push(row);
            i = i + 1;
        }
        rows
    }

    /// The components, each listing the patterns of the goals with its number.
    fn classes_chirho(&self, ids: &Vec<usize>, m: usize) -> (r: Vec<Vec<GoalPatternChirho>>)
        requires
            self.wf(),
            ids.len() == self.goals_m().len(),
            forall|j: int| 0 <= j < ids.len() ==> #[trigger] ids@[j] < m,
        ensures
            r.len() == m,
            forall|s: int| 0 <= s < m ==> pkeys((#[trigger] r@[s])@).no_duplicates(),
            forall|s: int, j: int|
                #![trigger pkeys(r@[s]@).contains(self.keys()[j])]
                #![trigger r@[s], ids@[j]]
                0 <= s < m && 0 <= j < ids.len() ==> (pkeys(r@[s]@).contains(self.keys()[j]) <==> ids@[j] == s),
            forall|s: int, x: (u32, Seq<u32>)|
                0 <= s < m && #[trigger] pkeys(r@[s]@).contains(x) ==> self.keys().contains(x),
    {
        let n = ids.len();
        let mut r: Vec<Vec<GoalPatternChirho>> = Vec::new();
        let mut s: usize = 0;
        while s < m
            invariant
                self.wf(),
                n == ids.len(),
                n == self.goals_m().len(),
                s <= m,
                r.len() == s,
                forall|q: int| 0 <= q < s ==> pkeys((#[trigger] r@[q])@).no_duplicates(),
                forall|q: int, j: int|
                    #![trigger pkeys(r@[q]@).contains(self.keys()[j])]
                    #![trigger r@[q], ids@[j]]
                    0 <= q < s && 0 <= j < n ==> (pkeys(r@[q]@).contains(self.keys()[j]) <==> ids@[j] == q),
                forall|q: int, x: (u32, Seq<u32>)|
                    0 <= q < s && #[trigger] pkeys(r@[q]@).contains(x) ==> self.keys().contains(x),
            decreases m - s,
        {
            let mut class: Vec<GoalPatternChirho> = Vec::new();
            let ghost mut idxs: Seq<int> = Seq::empty();
            let mut j: usize = 0;
            while j < n
                invariant
                    self.wf(),
                    n == ids.len(),
                    n == self.goals_m().len(),
                    j <= n,
                    class.len() == idxs.len(),
                    forall|t: int| 0 <= t < idxs.len() ==> 0 <= #[trigger] idxs[t] < j && ids@[idxs[t]] == s,
                    forall|t: int| 0 <= t < idxs.len() ==> pkeys(class@)[t] == self.keys()[#[trigger] idxs[t]],
                    forall|t1: int, t2: int| 0 <= t1 < t2 < idxs.len() ==> #[trigger] idxs[t1] < #[trigger] idxs[t2],
                    forall|x: int| 0 <= x < j && ids@[x] == s ==> #[trigger] idxs.contains(x),
                decreases n - j,
            {
                if ids[j] == s {
                    let p = copy_pattern_chirho(&self.goals_chirho[j].pattern_chirho);
                    let ghost before = class@;
                    class.push(p);
                    proof {
                        let old_idxs = idxs;
                        idxs = idxs.push(j as int);
                        assert(pkeys(class@) =~= pkeys(before).push(pkey(p)));
                        assert(pkey(p) == self.keys()[j as int]);
                        assert forall|x: int| 0 <= x < j + 1 && ids@[x] == s implies #[trigger] idxs.contains(x) by {
                            if x < j {
                                assert(old_idxs.contains(x));
                                let t = choose|t: int| 0 <= t < old_idxs.len() && old_idxs[t] == x;
                                assert(idxs[t] == x);
                            } else {
                                assert(idxs[idxs.len() - 1] == x);
                            }
                        }
                    }
                } else {
                    proof {
                        assert forall|x: int| 0 <= x < j + 1 && ids@[x] == s implies #[trigger] idxs.contains(x) by {
                        }
                    }
                }
                j = j + 1;
            }
            proof {
                let ks = pkeys(class@);
                assert forall|t1: int, t2: int| 0 <= t1 < ks.len() && 0 <= t2 < ks.len() && t1 != t2 implies ks[t1]
                    != ks[t2] by {
                    assert(ks[t1] == self.keys()[idxs[t1]]);
                    assert(ks[t2] == self.keys()[idxs[t2]]);
                    if t1 < t2 {
                        assert(idxs[t1] < idxs[t2]);
                    } else {
                        assert(idxs[t2] < idxs[t1]);
                    }
                }
                assert forall|jj: int| 0 <= jj < n implies (ks.contains(self.keys()[jj]) <==> ids@[jj] == s) by {
                    if ks.contains(self.keys()[jj]) {
                        let t = choose|t: int| 0 <= t < ks.len() && ks[t] == self.keys()[jj];
                        assert(self.keys()[idxs[t]] == self.keys()[jj]);
                        assert(idxs[t] == jj);
                    }
                    if ids@[jj] == s {
                        assert(idxs.contains(jj));
                        let t = choose|t: int| 0 <= t < idxs.len() && idxs[t] == jj;
                        assert(ks[t] == self.keys()[jj]);
                    }
                }
                assert forall|x: (u32, Seq<u32>)| #[trigger] ks.contains(x) implies self.keys().contains(x) by {
                    let t = choose|t: int| 0 <= t < ks.len() && ks[t] == x;
                    assert(self.keys()[idxs[t]] == x);
                }
            }
            r.push(class);
            s = s + 1;
        }
        r
    }
}

impl SlgTableChirho {
    /// Compute the strongly connected components of the dependency graph: goals
    /// that depend on each other share a component, each goal is given the number
    /// of its component, and a component comes after every component it depends on.
    pub fn compute_sccs_chirho(&mut self)
        requires
            old(self).wf(),
        ensures
            final(self).wf(),
            components_match(*final(self), *old(self)),
            forall|s: int| 0 <= s < final(self).sccs_m().len() ==> #[trigger] final(self).scc_used(s),
            forall|s: int|
                0 <= s < final(self).sccs_m().len() ==> (#[trigger] final(self).sccs_m()[s]).no_duplicates(),
            forall|s: int, x: (u32, Seq<u32>)|
                0 <= s < final(self).sccs_m().len() && #[trigger] final(self).sccs_m()[s].contains(x) ==> old(self).keys().contains(x),
            forall|i: int, j: int|
                0 <= i < old(self).goals_m().len() && 0 <= j < old(self).goals_m().len() && old(self).reaches(i, j)
                    && !old(self).reaches(j, i) ==> #[trigger] final(self).scc_of(j) < #[trigger] final(self).scc_of(i),
    {
        let ghost e0 = self.edges();
        let n = self.goals_chirho.len();
        let adj = self.adjacency_chirho();
        let rows = self.reach_rows_chirho(&adj);
        let mut cnts: Vec<usize> = Vec::new();
        let mut a: usize = 0;
        while a < n
            invariant
                n == rows.len(),
                a <= n,
                cnts.len() == a,
                forall|b: int| 0 <= b < a ==> cnts@[b] == count_true(#[trigger] rows@[b]@),
            decreases n - a,
        {
            cnts.push(count_row_chirho(&rows[a]));
            a = a + 1;
        }
        let (ids, m) = assign_components_chirho(&rows, &cnts, Ghost(self.edges()));
        let classes = self.classes_chirho(&ids, m);
        let ghost g0 = self.goals_m();
        let ghost k0 = self.keys();
        let mut j: usize = 0;
        while j < n
            invariant
                n == g0.len(),
                ids.len() == n,
                j <= n,
                self.goals_m().len() == n,
                forall|x: int| 0 <= x < n ==> same_but_scc(g0[x], #[trigger] self.goals_m()[x]),
                forall|x: int| 0 <= x < j ==> (#[trigger] self.goals_m()[x]).scc_id_chirho == Some(ids@[x]),
            decreases n - j,
        {
            let id = ids[j];
            self.goals_chirho[j].scc_id_chirho = Some(id);
            j = j + 1;
        }
        self.sccs_chirho = classes;
        proof {
            assert(self.keys() =~= k0);
            assert forall|x: int| 0 <= x < n implies deps_of(#[trigger] self.goals_m()[x]) == deps_of(g0[x])
                && dby_of(self.goals_m()[x]) == dby_of(g0[x]) && goal_lists_wf(self.goals_m()[x]) == goal_lists_wf(g0[x]) by {
            }
            assert forall|x: int| 0 <= x < n implies self.scc_of(x) == ids@[x] by {
                assert(self.goals_m()[x].scc_id_chirho == Some(ids@[x]));
            }
            assert forall|s: int| 0 <= s < m implies #[trigger] self.sccs_m()[s] == pkeys(classes@[s]@) by {}
            assert forall|s: int| 0 <= s < m implies #[trigger] self.scc_used(s) by {
                assert(id_used(ids@, s));
                let x = choose|x: int| 0 <= x < ids@.len() && ids@[x] == s;
                assert(self.scc_of(x) == s);
            }
            assert forall|i: int, jj: int|
                0 <= i < n && 0 <= jj < n implies (self.sccs_m()[self.scc_of(i)].contains(k0[jj]) <==> mutual_via(
                    e0,
                    i,
                    jj,
                )) by {
                assert(self.scc_of(i) == ids@[i]);
                assert(self.sccs_m()[ids@[i] as int] == pkeys(classes@[ids@[i] as int]@));
            }
        }
    }

    /// Mark every goal of component `scc_id_chirho` complete (nothing happens for a
    /// number with no component).
    pub fn complete_scc_chirho(&mut self, scc_id_chirho: usize)
        requires
            old(self).wf(),
        ensures
            final(self).wf(),
            completed_component(*final(self), *old(self), scc_id_chirho as int),
    {
        let ghost g0 = self.goals_m();
        let ghost k0 = self.keys();
        let ghost s0 = self.sccs_m();
        if scc_id_chirho >= self.sccs_chirho.len() {
            return;
        }
        let ghost cl = s0[scc_id_chirho as int];
        let len = self.sccs_chirho[scc_id_chirho].len();
        let mut t: usize = 0;
        while t < len
            invariant
                self.wf(),
                scc_id_chirho < self.sccs_chirho.len(),
                self.sccs_m() == s0,
                self.keys() == k0,
                cl == s0[scc_id_chirho as int],
                cl == pkeys(self.sccs_chirho@[scc_id_chirho as int]@),
                len == cl.len(),
                t <= len,
                self.goals_m().len() == g0.len(),
                forall|i: int|
                    0 <= i < g0.len() ==> same_but_status(g0[i], #[trigger] self.goals_m()[i])
                        && self.goals_m()[i].status_chirho == if cl.take(t as int).contains(k0[i]) {
                        GoalStatusChirho::CompleteChirho
                    } else {
                        g0[i].status_chirho
                    },
            decreases len - t,
        {
            let k = self.index_of_chirho(&self.sccs_chirho[scc_id_chirho][t]);
            let ghost kt = cl[t as int];
            proof {
                assert(cl.take(t + 1) =~= cl.take(t as int).push(kt));
                assert(kt == pkey(self.sccs_chirho@[scc_id_chirho as int]@[t as int]));
            }
            match k {
                Some(i) => {
                    let ghost before = self.goals_m();
                    self.goals_chirho[i].status_chirho = GoalStatusChirho::CompleteChirho;
                    proof {
                        assert(self.keys() =~= k0);
                        assert forall|x: int| 0 <= x < g0.len() implies deps_of(#[trigger] self.goals_m()[x])
                            == deps_of(before[x]) && dby_of(self.goals_m()[x]) == dby_of(before[x])
                            && goal_lists_wf(self.goals_m()[x]) == goal_lists_wf(before[x]) by {}
                        assert forall|x: int| 0 <= x < g0.len() implies (cl.take(t + 1).contains(k0[x]) <==> (
                            cl.take(t as int).contains(k0[x]) || k0[x] == kt)) by {
                            let q = cl.take(t + 1);
                            if q.contains(k0[x]) {
                                let w = choose|w: int| 0 <= w < q.len() && q[w] == k0[x];
                                if w < t {
                                    assert(cl.take(t as int)[w] == k0[x]);
                                }
                            }
                            if cl.take(t as int).contains(k0[x]) {
                                let w = choose|w: int| 0 <= w < t && cl.take(t as int)[w] == k0[x];
                                assert(q[w] == k0[x]);
                            }
                            if k0[x] == kt {
                                assert(q[t as int] == k0[x]);
                            }
                        }
                        assert forall|x: int| 0 <= x < g0.len() && k0[x] == kt implies x == i by {}
                    }
                },
                None => {
                    proof {
                        assert forall|x: int| 0 <= x < g0.len() implies (cl.take(t + 1).contains(k0[x]) <==> cl.take(
                            t as int,
                        ).contains(k0[x])) by {
                            let q = cl.take(t + 1);
                            if q.contains(k0[x]) {
                                let w = choose|w: int| 0 <= w < q.len() && q[w] == k0[x];
                                if w < t {
                                    assert(cl.take(t as int)[w] == k0[x]);
                                } else {
                                    assert(k0[x] == kt);
                                    assert(k0.contains(kt));
                                }
                            }
                            if cl.take(t as int).contains(k0[x]) {
                                let w = choose|w: int| 0 <= w < t && cl.take(t as int)[w] == k0[x];
                                assert(q[w] == k0[x]);
                            }
                        }
                    }
                },
            }
            t = t + 1;
        }
        proof {
            assert(cl.take(len as int) =~= cl);
        }
    }

    /// The component of the goal with the pattern, when the goal exists and has one.
    pub fn get_scc_chirho(&self, pattern_chirho: &GoalPatternChirho) -> (r: Option<&Vec<GoalPatternChirho>>)
        requires
            self.wf(),
        ensures
            r is Some <==> (self.keys().contains(pkey(*pattern_chirho)) && 0 <= self.scc_of(
                self.keys().index_of(pkey(*pattern_chirho)),
            ) < self.sccs_m().len()),
            r matches Some(v) ==> pkeys(v@) == self.sccs_m()[self.scc_of(
                self.keys().index_of(pkey(*pattern_chirho)),
            )],
    {
        match self.index_of_chirho(pattern_chirho) {
            None => None,
            Some(i) => match self.goals_chirho[i].scc_id_chirho {
                None => None,
                Some(s) => {
                    if s < self.sccs_chirho.len() {
                        Some(&self.sccs_chirho[s])
                    } else {
                        None
                    }
                },
            },
        }
    }
}

/// `new` is `old` with components computed: same goals and patterns, only the
/// component numbers set, each in range, and the component of goal `i` holding
/// exactly the patterns of the goals that depend mutually with `i`.
pub open spec fn components_match(new: SlgTableChirho, old: SlgTableChirho) -> bool {
    &&& new.keys() == old.keys()
    &&& new.goals_m().len() == old.goals_m().len()
    &&& forall|i: int| 0 <= i < old.goals_m().len() ==> same_but_scc(old.goals_m()[i], #[trigger] new.goals_m()[i])
    &&& forall|i: int| 0 <= i < old.goals_m().len() ==> 0 <= #[trigger] new.scc_of(i) < new.sccs_m().len()
    &&& forall|i: int, j: int|
        #![trigger new.sccs_m()[new.scc_of(i)].contains(old.keys()[j])]
        #![trigger old.mutual(i, j)]
        0 <= i < old.goals_m().len() && 0 <= j < old.goals_m().len() ==> (new.sccs_m()[new.scc_of(i)].contains(
            old.keys()[j],
        ) <==> old.mutual(i, j))
}

/// `new` is `old` with component `s` completed: the goals whose patterns the
/// component lists become complete (none when there is no component `s`), and
/// nothing else changes.
pub open spec fn completed_component(new: SlgTableChirho, old: SlgTableChirho, s: int) -> bool {
    &&& new.keys() == old.keys()
    &&& new.goals_m().len() == old.goals_m().len()
    &&& new.sccs_m() == old.sccs_m()
    &&& forall|i: int|
        0 <= i < old.goals_m().len() ==> same_but_status(old.goals_m()[i], #[trigger] new.goals_m()[i])
            && new.goals_m()[i].status_chirho == if 0 <= s < old.sccs_m().len() && old.sccs_m()[s].contains(
            old.keys()[i],
        ) {
            GoalStatusChirho::CompleteChirho
        } else {
            old.goals_m()[i].status_chirho
        }
}

/// Completing the component of goal `i` right after computing the components
/// completes exactly the goals that depend mutually with `i`, and leaves every
/// other goal's status as it was.
pub proof fn lemma_complete_component(t0: SlgTableChirho, t1: SlgTableChirho, t2: SlgTableChirho, i: int, j: int)
    requires
        0 <= i < t0.goals_m().len(),
        0 <= j < t0.goals_m().len(),
        components_match(t1, t0),
        completed_component(t2, t1, t1.scc_of(i)),
    ensures
        t2.goals_m()[j].status_chirho == if t0.mutual(i, j) {
            GoalStatusChirho::CompleteChirho
        } else {
            t0.goals_m()[j].status_chirho
        },
{
    assert(same_but_scc(t0.goals_m()[j], t1.goals_m()[j]));
    assert(0 <= t1.scc_of(i) < t1.sccs_m().len());
    assert(t1.sccs_m()[t1.scc_of(i)].contains(t0.keys()[j]) <==> t0.mutual(i, j));
}

/// Two goals agree on everything but their answers.
pub open spec fn same_but_answers(g1: SlgGoalChirho, g2: SlgGoalChirho) -> bool {
    &&& g1.pattern_chirho == g2.pattern_chirho
    &&& g1.depends_on_chirho == g2.depends_on_chirho
    &&& g1.depended_by_chirho == g2.depended_by_chirho
    &&& g1.status_chirho == g2.status_chirho
    &&& g1.scc_id_chirho == g2.scc_id_chirho
}

} // verus!
