//! Finite and cofinite domains over `i64`: "exactly these values" and "every
//! value except these", closed under intersection, union and complement.

use vstd::prelude::*;
use std::collections::HashSet;
use vstd::std_specs::hash::spec_hash_keys_iter;
use vstd::std_specs::iter::IteratorSpec;

verus! {

broadcast use vstd::std_specs::hash::group_hash_axioms;

/// What a domain stands for, with its sets as mathematical sets.
pub enum ComplementViewChirho {
    All,
    Empty,
    Finite(Set<i64>),
    Cofinite(Set<i64>),
}

impl ComplementViewChirho {
    /// `v` belongs to the domain.
    pub open spec fn has(self, v: i64) -> bool {
        match self {
            ComplementViewChirho::All => true,
            ComplementViewChirho::Empty => false,
            ComplementViewChirho::Finite(s) => s.contains(v),
            ComplementViewChirho::Cofinite(s) => !s.contains(v),
        }
    }
}

/// `Finite(s)`, or `Empty` when `s` has nothing.
pub open spec fn finite_or_empty(s: Set<i64>) -> ComplementViewChirho {
    if s == Set::<i64>::empty() { ComplementViewChirho::Empty } else { ComplementViewChirho::Finite(s) }
}

/// `Cofinite(s)`, or `All` when `s` has nothing.
pub open spec fn cofinite_or_all(s: Set<i64>) -> ComplementViewChirho {
    if s == Set::<i64>::empty() { ComplementViewChirho::All } else { ComplementViewChirho::Cofinite(s) }
}

/// The representation `intersect_chirho` builds.
pub open spec fn intersect_view(a: ComplementViewChirho, b: ComplementViewChirho) -> ComplementViewChirho {
    match (a, b) {
        (ComplementViewChirho::All, _) => b,
        (_, ComplementViewChirho::All) => a,
        (ComplementViewChirho::Empty, _) => ComplementViewChirho::Empty,
        (_, ComplementViewChirho::Empty) => ComplementViewChirho::Empty,
        (ComplementViewChirho::Finite(x), ComplementViewChirho::Finite(y)) => finite_or_empty(x.intersect(y)),
        (ComplementViewChirho::Finite(f), ComplementViewChirho::Cofinite(e)) => finite_or_empty(f.difference(e)),
        (ComplementViewChirho::Cofinite(e), ComplementViewChirho::Finite(f)) => finite_or_empty(f.difference(e)),
        (ComplementViewChirho::Cofinite(x), ComplementViewChirho::Cofinite(y)) => ComplementViewChirho::Cofinite(x.union(y)),
    }
}

/// The representation `union_chirho` builds.
pub open spec fn union_view(a: ComplementViewChirho, b: ComplementViewChirho) -> ComplementViewChirho {
    match (a, b) {
        (ComplementViewChirho::Empty, _) => b,
        (_, ComplementViewChirho::Empty) => a,
        (ComplementViewChirho::All, _) => ComplementViewChirho::All,
        (_, ComplementViewChirho::All) => ComplementViewChirho::All,
        (ComplementViewChirho::Finite(x), ComplementViewChirho::Finite(y)) => ComplementViewChirho::Finite(x.union(y)),
        (ComplementViewChirho::Finite(f), ComplementViewChirho::Cofinite(e)) => cofinite_or_all(e.difference(f)),
        (ComplementViewChirho::Cofinite(e), ComplementViewChirho::Finite(f)) => cofinite_or_all(e.difference(f)),
        (ComplementViewChirho::Cofinite(x), ComplementViewChirho::Cofinite(y)) => cofinite_or_all(x.intersect(y)),
    }
}

/// The representation `complement_chirho` builds.
pub open spec fn complement_view(a: ComplementViewChirho) -> ComplementViewChirho {
    match a {
        ComplementViewChirho::All => ComplementViewChirho::Empty,
        ComplementViewChirho::Empty => ComplementViewChirho::All,
        ComplementViewChirho::Finite(s) => ComplementViewChirho::Cofinite(s),
        ComplementViewChirho::Cofinite(s) => ComplementViewChirho::Finite(s),
    }
}

/// A domain that is finite or cofinite.
#[derive(Debug)]
pub enum ComplementDomainChirho {
    /// Every value.
    AllChirho,
    /// No value.
    EmptyChirho,
    /// Exactly these values.
    FiniteChirho(HashSet<i64>),
    /// Every value except these.
    CofiniteChirho(HashSet<i64>),
}

impl View for ComplementDomainChirho {
    type V = ComplementViewChirho;

    open spec fn view(&self) -> ComplementViewChirho {
        match self {
            ComplementDomainChirho::AllChirho => ComplementViewChirho::All,
            ComplementDomainChirho::EmptyChirho => ComplementViewChirho::Empty,
            ComplementDomainChirho::FiniteChirho(s) => ComplementViewChirho::Finite(s@),
            ComplementDomainChirho::CofiniteChirho(s) => ComplementViewChirho::Cofinite(s@),
        }
    }
}

/// A copy of `a` keeping the values whose membership in `b` is `keep`.
fn filter_by_chirho(a: &HashSet<i64>, b: &HashSet<i64>, keep: bool) -> (r: HashSet<i64>)
    ensures
        forall|v: i64| #[trigger] r@.contains(v) == (a@.contains(v) && b@.contains(v) == keep),
{
    let ghost s = spec_hash_keys_iter(a).remaining().unref();
    let ghost mut seen: int = 0;
    let mut out: HashSet<i64> = HashSet::new();
    for x in it: a.iter()
        invariant
            it.seq().unref() == s,
            s.to_set() == a@,
            seen == it.index(),
            forall|v: i64| #[trigger] out@.contains(v) == ((exists|k: int| 0 <= k < seen && s[k] == v) && b@.contains(v) == keep),
    {
        proof {
            assert(*x == s[seen]);
        }
        if b.contains(x) == keep {
            out.insert(*x);
        }
        proof {
            seen = seen + 1;
        }
    }
    proof {
        assert forall|v: i64| #[trigger] out@.contains(v) == (a@.contains(v) && b@.contains(v) == keep) by {
            if a@.contains(v) {
                assert(s.to_set().contains(v));
                let k = choose|k: int| 0 <= k < s.len() && s[k] == v;
            }
            if exists|k: int| 0 <= k < seen && s[k] == v {
                let k = choose|k: int| 0 <= k < seen && s[k] == v;
                assert(s.to_set().contains(v));
            }
        }
    }
    out
}

/// The union of two sets.
fn union_of_chirho(a: &HashSet<i64>, b: &HashSet<i64>) -> (r: HashSet<i64>)
    ensures
        r@ == a@.union(b@),
{
    let empty: HashSet<i64> = HashSet::new();
    let mut out = filter_by_chirho(a, &empty, false);
    let ghost s = spec_hash_keys_iter(b).remaining().unref();
    let ghost mut seen: int = 0;
    for x in it: b.iter()
        invariant
            it.seq().unref() == s,
            s.to_set() == b@,
            seen == it.index(),
            forall|v: i64| #[trigger] out@.contains(v) == (a@.contains(v) || exists|k: int| 0 <= k < seen && s[k] == v),
    {
        proof {
            assert(*x == s[seen]);
        }
        out.insert(*x);
        proof {
            seen = seen + 1;
        }
    }
    proof {
        assert forall|v: i64| #[trigger] out@.contains(v) == a@.union(b@).contains(v) by {
            if b@.contains(v) {
                assert(s.to_set().contains(v));
                let k = choose|k: int| 0 <= k < s.len() && s[k] == v;
            }
            if exists|k: int| 0 <= k < seen && s[k] == v {
                assert(s.to_set().contains(v));
            }
        }
        assert(out@ =~= a@.union(b@));
    }
    out
}

/// A copy of a set.
fn copy_set_chirho(a: &HashSet<i64>) -> (r: HashSet<i64>)
    ensures
        r@ == a@,
{
    let empty: HashSet<i64> = HashSet::new();
    let r = filter_by_chirho(a, &empty, false);
    assert(r@ =~= a@);
    r
}

impl ComplementDomainChirho {
    /// Every value.
    pub fn all_chirho() -> (r: Self)
        ensures
            r@ == ComplementViewChirho::All,
    {
        ComplementDomainChirho::AllChirho
    }

    /// No value.
    pub fn empty_chirho() -> (r: Self)
        ensures
            r@ == ComplementViewChirho::Empty,
    {
        ComplementDomainChirho::EmptyChirho
    }

    /// Exactly `value`.
    pub fn singleton_chirho(value_chirho: i64) -> (r: Self)
        ensures
            r@ == ComplementViewChirho::Finite(set![value_chirho]),
    {
        let mut set_chirho = HashSet::new();
        set_chirho.insert(value_chirho);
        assert(set_chirho@ =~= set![value_chirho]);
        ComplementDomainChirho::FiniteChirho(set_chirho)
    }

    /// Every value except `value` (a disequality).
    pub fn all_except_chirho(value_chirho: i64) -> (r: Self)
        ensures
            r@ == ComplementViewChirho::Cofinite(set![value_chirho]),
    {
        let mut set_chirho = HashSet::new();
        set_chirho.insert(value_chirho);
        assert(set_chirho@ =~= set![value_chirho]);
        ComplementDomainChirho::CofiniteChirho(set_chirho)
    }

    /// Exactly the given values (`Empty` when there are none).
    pub fn from_set_chirho(values_chirho: HashSet<i64>) -> (r: Self)
        ensures
            r@ == finite_or_empty(values_chirho@),
    {
        if values_chirho.is_empty() {
            assert(values_chirho@ =~= Set::<i64>::empty());
            ComplementDomainChirho::EmptyChirho
        } else {
            ComplementDomainChirho::FiniteChirho(values_chirho)
        }
    }

    /// Does the domain hold `value`?
    pub fn contains_chirho(&self, value_chirho: i64) -> (r: bool)
        ensures
            r == self@.has(value_chirho),
    {
        match self {
            ComplementDomainChirho::AllChirho => true,
            ComplementDomainChirho::EmptyChirho => false,
            ComplementDomainChirho::FiniteChirho(set) => set.contains(&value_chirho),
            ComplementDomainChirho::CofiniteChirho(excluded) => !excluded.contains(&value_chirho),
        }
    }

    /// A copy.
    pub fn copy_chirho(&self) -> (r: Self)
        ensures
            r@ == self@,
    {
        match self {
            ComplementDomainChirho::AllChirho => ComplementDomainChirho::AllChirho,
            ComplementDomainChirho::EmptyChirho => ComplementDomainChirho::EmptyChirho,
            ComplementDomainChirho::FiniteChirho(set) => ComplementDomainChirho::FiniteChirho(copy_set_chirho(set)),
            ComplementDomainChirho::CofiniteChirho(set) => ComplementDomainChirho::CofiniteChirho(copy_set_chirho(set)),
        }
    }

    /// Intersection.
    pub fn intersect_chirho(&self, other_chirho: &Self) -> (r: Self)
        ensures
            r@ == intersect_view(self@, other_chirho@),
            forall|v: i64| #[trigger] r@.has(v) == (self@.has(v) && other_chirho@.has(v)),
    {
        let r = match (self, other_chirho) {
            (ComplementDomainChirho::AllChirho, x) => x.copy_chirho(),
            (x, ComplementDomainChirho::AllChirho) => x.copy_chirho(),
            (ComplementDomainChirho::EmptyChirho, _) => ComplementDomainChirho::EmptyChirho,
            (_, ComplementDomainChirho::EmptyChirho) => ComplementDomainChirho::EmptyChirho,
            (ComplementDomainChirho::FiniteChirho(a), ComplementDomainChirho::FiniteChirho(b)) => {
                let i = filter_by_chirho(a, b, true);
                assert(i@ =~= a@.intersect(b@));
                Self::from_set_chirho(i)
            },
            (ComplementDomainChirho::FiniteChirho(f), ComplementDomainChirho::CofiniteChirho(e)) => {
                let d = filter_by_chirho(f, e, false);
                assert(d@ =~= f@.difference(e@));
                Self::from_set_chirho(d)
            },
            (ComplementDomainChirho::CofiniteChirho(e), ComplementDomainChirho::FiniteChirho(f)) => {
                let d = filter_by_chirho(f, e, false);
                assert(d@ =~= f@.difference(e@));
                Self::from_set_chirho(d)
            },
            (ComplementDomainChirho::CofiniteChirho(a), ComplementDomainChirho::CofiniteChirho(b)) => {
                ComplementDomainChirho::CofiniteChirho(union_of_chirho(a, b))
            },
        };
        proof {
            lemma_intersect_view_has(self@, other_chirho@);
        }
        r
    }

    /// Union.
    pub fn union_chirho(&self, other_chirho: &Self) -> (r: Self)
        ensures
            r@ == union_view(self@, other_chirho@),
            forall|v: i64| #[trigger] r@.has(v) == (self@.has(v) || other_chirho@.has(v)),
    {
        let r = match (self, other_chirho) {
            (ComplementDomainChirho::EmptyChirho, x) => x.copy_chirho(),
            (x, ComplementDomainChirho::EmptyChirho) => x.copy_chirho(),
            (ComplementDomainChirho::AllChirho, _) => ComplementDomainChirho::AllChirho,
            (_, ComplementDomainChirho::AllChirho) => ComplementDomainChirho::AllChirho,
            (ComplementDomainChirho::FiniteChirho(a), ComplementDomainChirho::FiniteChirho(b)) => {
                ComplementDomainChirho::FiniteChirho(union_of_chirho(a, b))
            },
            (ComplementDomainChirho::FiniteChirho(f), ComplementDomainChirho::CofiniteChirho(e)) => {
                let d = filter_by_chirho(e, f, false);
                assert(d@ =~= e@.difference(f@));
                Self::cofinite_from_chirho(d)
            },
            (ComplementDomainChirho::CofiniteChirho(e), ComplementDomainChirho::FiniteChirho(f)) => {
                let d = filter_by_chirho(e, f, false);
                assert(d@ =~= e@.difference(f@));
                Self::cofinite_from_chirho(d)
            },
            (ComplementDomainChirho::CofiniteChirho(a), ComplementDomainChirho::CofiniteChirho(b)) => {
                let i = filter_by_chirho(a, b, true);
                assert(i@ =~= a@.intersect(b@));
                Self::cofinite_from_chirho(i)
            },
        };
        proof {
            lemma_union_view_has(self@, other_chirho@);
        }
        r
    }

    /// Every value except the given ones (`All` when there are none).
    fn cofinite_from_chirho(excluded: HashSet<i64>) -> (r: Self)
        ensures
            r@ == cofinite_or_all(excluded@),
    {
        if excluded.is_empty() {
            assert(excluded@ =~= Set::<i64>::empty());
            ComplementDomainChirho::AllChirho
        } else {
            ComplementDomainChirho::CofiniteChirho(excluded)
        }
    }

    /// Complement.
    pub fn complement_chirho(&self) -> (r: Self)
        ensures
            r@ == complement_view(self@),
            forall|v: i64| #[trigger] r@.has(v) == !self@.has(v),
    {
        match self {
            ComplementDomainChirho::AllChirho => ComplementDomainChirho::EmptyChirho,
            ComplementDomainChirho::EmptyChirho => ComplementDomainChirho::AllChirho,
            ComplementDomainChirho::FiniteChirho(set) => ComplementDomainChirho::CofiniteChirho(copy_set_chirho(set)),
            ComplementDomainChirho::CofiniteChirho(set) => ComplementDomainChirho::FiniteChirho(copy_set_chirho(set)),
        }
    }

    /// Is this the `Empty` form?
    pub fn is_empty_chirho(&self) -> (r: bool)
        ensures
            r == (self@ is Empty),
    {
        match self {
            ComplementDomainChirho::EmptyChirho => true,
            _ => false,
        }
    }

    /// Is this `All` or cofinite?
    pub fn is_infinite_chirho(&self) -> (r: bool)
        ensures
            r == (self@ is All || self@ is Cofinite),
    {
        match self {
            ComplementDomainChirho::AllChirho => true,
            ComplementDomainChirho::CofiniteChirho(_) => true,
            _ => false,
        }
    }

    /// Is this `Empty` or finite?
    pub fn is_finite_chirho(&self) -> (r: bool)
        ensures
            r == (self@ is Empty || self@ is Finite),
    {
        match self {
            ComplementDomainChirho::EmptyChirho => true,
            ComplementDomainChirho::FiniteChirho(_) => true,
            _ => false,
        }
    }

    /// Number of values of a finite domain (`None` for an infinite one).
    pub fn size_chirho(&self) -> (r: Option<usize>)
        ensures
            r == match self@ {
                ComplementViewChirho::Empty => Some(0usize),
                ComplementViewChirho::Finite(s) => Some(s.len() as usize),
                _ => None::<usize>,
            },
    {
        match self {
            ComplementDomainChirho::EmptyChirho => Some(0),
            ComplementDomainChirho::FiniteChirho(set) => Some(set.len()),
            _ => None,
        }
    }

    /// The values of a finite domain, each once (`None` for an infinite one).
    pub fn iter_chirho(&self) -> (r: Option<Vec<i64>>)
        ensures
            match self@ {
                ComplementViewChirho::Empty => r matches Some(v) && v@.len() == 0,
                ComplementViewChirho::Finite(s) => r matches Some(v) && v@.no_duplicates() && v@.to_set() == s,
                _ => r is None,
            },
    {
        match self {
            ComplementDomainChirho::FiniteChirho(set) => {
                let ghost s = spec_hash_keys_iter(set).remaining().unref();
                let mut out: Vec<i64> = Vec::new();
                for x in it: set.iter()
                    invariant
                        it.seq().unref() == s,
                        s.no_duplicates(),
                        s.to_set() == set@,
                        out@ == s.subrange(0, it.index() as int),
                {
                    out.push(*x);
                }
                proof {
                    assert(out@ == s);
                }
                Some(out)
            },
            ComplementDomainChirho::EmptyChirho => Some(Vec::new()),
            _ => None,
        }
    }
}

impl Default for ComplementDomainChirho {
    fn default() -> (r: Self)
        ensures
            r@ == ComplementViewChirho::All,
    {
        ComplementDomainChirho::AllChirho
    }
}

/// The intersection's representation holds exactly the values of both.
pub proof fn lemma_intersect_view_has(a: ComplementViewChirho, b: ComplementViewChirho)
    ensures
        forall|v: i64| #[trigger] intersect_view(a, b).has(v) == (a.has(v) && b.has(v)),
{
    assert forall|v: i64| #[trigger] intersect_view(a, b).has(v) == (a.has(v) && b.has(v)) by {
        match (a, b) {
            (ComplementViewChirho::Finite(x), ComplementViewChirho::Finite(y)) => {
                lemma_finite_or_empty_has(x.intersect(y), v);
            },
            (ComplementViewChirho::Finite(f), ComplementViewChirho::Cofinite(e)) => {
                lemma_finite_or_empty_has(f.difference(e), v);
            },
            (ComplementViewChirho::Cofinite(e), ComplementViewChirho::Finite(f)) => {
                lemma_finite_or_empty_has(f.difference(e), v);
            },
            _ => {},
        }
    }
}

/// The union's representation holds exactly the values of either.
pub proof fn lemma_union_view_has(a: ComplementViewChirho, b: ComplementViewChirho)
    ensures
        forall|v: i64| #[trigger] union_view(a, b).has(v) == (a.has(v) || b.has(v)),
{
    assert forall|v: i64| #[trigger] union_view(a, b).has(v) == (a.has(v) || b.has(v)) by {
        match (a, b) {
            (ComplementViewChirho::Finite(f), ComplementViewChirho::Cofinite(e)) => {
                lemma_cofinite_or_all_has(e.difference(f), v);
            },
            (ComplementViewChirho::Cofinite(e), ComplementViewChirho::Finite(f)) => {
                lemma_cofinite_or_all_has(e.difference(f), v);
            },
            (ComplementViewChirho::Cofinite(x), ComplementViewChirho::Cofinite(y)) => {
                lemma_cofinite_or_all_has(x.intersect(y), v);
            },
            _ => {},
        }
    }
}

proof fn lemma_finite_or_empty_has(s: Set<i64>, v: i64)
    ensures
        finite_or_empty(s).has(v) == s.contains(v),
{
}

proof fn lemma_cofinite_or_all_has(s: Set<i64>, v: i64)
    ensures
        cofinite_or_all(s).has(v) == !s.contains(v),
{
}

} // verus!
