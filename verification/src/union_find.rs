//! Union-find over the ids `0..n`, kept flat: every id points straight at the
//! root of its set, so a lookup is one read and a union relabels the members
//! of the absorbed set.

use vstd::prelude::*;
use vstd::set_lib::{set_int_range, lemma_int_range, lemma_len_subset};

verus! {

/// Every entry names an id in range that is its own root.
pub open spec fn flat(p: Seq<u32>) -> bool {
    &&& p.len() <= u32::MAX
    &&& forall|i: int| 0 <= i < p.len() ==> (#[trigger] p[i]) < p.len() && p[p[i] as int] == p[i]
}

/// The roots: ids that are their own representative.
pub open spec fn roots(p: Seq<u32>) -> Set<int> {
    Set::new(|i: int| 0 <= i < p.len() && p[i] == i)
}

/// The entries after the set of root `rb` is absorbed into that of `ra`.
pub open spec fn relabel(p: Seq<u32>, ra: u32, rb: u32) -> Seq<u32> {
    Seq::new(p.len(), |i: int| if p[i] == rb { ra } else { p[i] })
}

/// The roots of `p` are finitely many and no more than its length.
pub proof fn lemma_roots_finite(p: Seq<u32>)
    ensures
        roots(p).finite(),
        roots(p).len() <= p.len(),
{
    lemma_int_range(0, p.len() as int);
    lemma_len_subset(roots(p), set_int_range(0, p.len() as int));
}

/// Absorbing one root into another removes exactly the absorbed root.
pub proof fn lemma_relabel_roots(p: Seq<u32>, ra: u32, rb: u32)
    requires
        flat(p),
        ra < p.len(),
        rb < p.len(),
        p[ra as int] == ra,
        p[rb as int] == rb,
        ra != rb,
    ensures
        flat(relabel(p, ra, rb)),
        roots(relabel(p, ra, rb)) == roots(p).remove(rb as int),
        roots(relabel(p, ra, rb)).len() + 1 == roots(p).len(),
{
    let q = relabel(p, ra, rb);
    assert(roots(q) =~= roots(p).remove(rb as int));
    lemma_roots_finite(p);
}

/// Sets of ids, each id pointing at the root of its set.
#[derive(Debug, Clone)]
pub struct UnionFindChirho {
    /// Root of each id.
    pub parent_chirho: Vec<u32>,
}

impl UnionFindChirho {
    /// Root of each id.
    pub open spec fn rep(&self) -> Seq<u32> {
        self.parent_chirho@
    }

    /// Every id points at a root of its own set.
    pub open spec fn wf(&self) -> bool {
        flat(self.rep())
    }

    /// No ids yet.
    pub fn new() -> (r: Self)
        ensures
            r.wf(),
            r.rep() == Seq::<u32>::empty(),
    {
        Self { parent_chirho: Vec::new() }
    }

    /// Add the next id as a set of its own.
    pub fn make_set_chirho(&mut self, id_chirho: u32)
        requires
            old(self).wf(),
            id_chirho == old(self).rep().len(),
            old(self).rep().len() < u32::MAX,
        ensures
            final(self).wf(),
            final(self).rep() == old(self).rep().push(id_chirho),
    {
        self.parent_chirho.push(id_chirho);
    }

    /// Root of the set of `x`.
    pub fn find_immut_chirho(&self, x_chirho: u32) -> (r: u32)
        requires
            self.wf(),
            x_chirho < self.rep().len(),
        ensures
            r == self.rep()[x_chirho as int],
    {
        self.parent_chirho[x_chirho as usize]
    }

    /// Root of the set of `x` (the sets are already flat, so nothing moves).
    pub fn find_chirho(&mut self, x_chirho: u32) -> (r: u32)
        requires
            old(self).wf(),
            x_chirho < old(self).rep().len(),
        ensures
            *final(self) == *old(self),
            r == old(self).rep()[x_chirho as int],
    {
        self.parent_chirho[x_chirho as usize]
    }

    /// Join the sets of `a` and `b`; the root of `a` stays the root. Returns
    /// whether the two were in different sets.
    pub fn union_chirho(&mut self, a_chirho: u32, b_chirho: u32) -> (r: bool)
        requires
            old(self).wf(),
            a_chirho < old(self).rep().len(),
            b_chirho < old(self).rep().len(),
        ensures
            final(self).wf(),
            r == (old(self).rep()[a_chirho as int] != old(self).rep()[b_chirho as int]),
            final(self).rep() == relabel(old(self).rep(), old(self).rep()[a_chirho as int], old(self).rep()[b_chirho as int]),
    {
        let ra = self.parent_chirho[a_chirho as usize];
        let rb = self.parent_chirho[b_chirho as usize];
        let ghost p0 = self.rep();
        if ra == rb {
            assert(self.rep() =~= relabel(p0, ra, rb));
            return false;
        }
        let n = self.parent_chirho.len();
        let mut i: usize = 0;
        while i < n
            invariant
                n == self.parent_chirho.len() == p0.len(),
                flat(p0),
                ra == p0[a_chirho as int],
                rb == p0[b_chirho as int],
                a_chirho < n,
                b_chirho < n,
                i <= n,
                forall|k: int| 0 <= k < i ==> #[trigger] self.rep()[k] == relabel(p0, ra, rb)[k],
                forall|k: int| i <= k < n ==> #[trigger] self.rep()[k] == p0[k],
            decreases n - i,
        {
            let ghost before = self.rep();
            if self.parent_chirho[i] == rb {
                self.parent_chirho.set(i, ra);
            }
            assert(self.rep() =~= before.update(i as int, relabel(p0, ra, rb)[i as int]));
            i = i + 1;
        }
        assert(self.rep() =~= relabel(p0, ra, rb));
        proof {
            lemma_relabel_roots(p0, ra, rb);
        }
        true
    }
}

} // verus!
