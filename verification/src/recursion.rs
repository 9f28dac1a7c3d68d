//! Recursion schemes over terms: one layer of term structure, a store of
//! layers indexed by id, and folds over it.
use vstd::prelude::*;
use std::collections::HashSet;
use vstd::std_specs::iter::IteratorSpec;

verus! {

/// One layer of term structure, with `A` in the recursive positions.
#[derive(Debug, Clone, PartialEq, Eq, Hash)]
pub enum TermFChirho<A> {
    /// Logic variable (leaf).
    VarFChirho(u32),
    /// Integer constant (leaf).
    IntFChirho(i64),
    /// Nil (leaf).
    NilFChirho,
    /// Cons cell.
    ConsFChirho(A, A),
    /// Symbol (leaf).
    SymFChirho(u32),
    /// Application.
    AppFChirho(A, A),
}

impl<A> TermFChirho<A> {
    /// The recursive positions, in order.
    pub open spec fn children_seq(self) -> Seq<A> {
        match self {
            TermFChirho::ConsFChirho(h, t) => seq![h, t],
            TermFChirho::AppFChirho(f, a) => seq![f, a],
            _ => Seq::empty(),
        }
    }

    /// `r` is this layer with each recursive position replaced by a result of `f` on it.
    pub open spec fn mapped_by<B, F: Fn(A) -> B>(self, f: F, r: TermFChirho<B>) -> bool {
        match self {
            TermFChirho::VarFChirho(v) => r == TermFChirho::<B>::VarFChirho(v),
            TermFChirho::IntFChirho(n) => r == TermFChirho::<B>::IntFChirho(n),
            TermFChirho::NilFChirho => r == TermFChirho::<B>::NilFChirho,
            TermFChirho::SymFChirho(s) => r == TermFChirho::<B>::SymFChirho(s),
            TermFChirho::ConsFChirho(h, t) => r matches TermFChirho::ConsFChirho(h2, t2) && call_ensures(
                f,
                (h,),
                h2,
            ) && call_ensures(f, (t,), t2),
            TermFChirho::AppFChirho(g, a) => r matches TermFChirho::AppFChirho(g2, a2) && call_ensures(
                f,
                (g,),
                g2,
            ) && call_ensures(f, (a,), a2),
        }
    }

    /// The layer with `f` applied to each recursive position.
    pub open spec fn fmap<B>(self, f: spec_fn(A) -> B) -> TermFChirho<B> {
        match self {
            TermFChirho::VarFChirho(v) => TermFChirho::VarFChirho(v),
            TermFChirho::IntFChirho(n) => TermFChirho::IntFChirho(n),
            TermFChirho::NilFChirho => TermFChirho::NilFChirho,
            TermFChirho::SymFChirho(s) => TermFChirho::SymFChirho(s),
            TermFChirho::ConsFChirho(h, t) => TermFChirho::ConsFChirho(f(h), f(t)),
            TermFChirho::AppFChirho(g, a) => TermFChirho::AppFChirho(f(g), f(a)),
        }
    }

    /// Functor law: mapping the identity changes nothing.
    pub proof fn lemma_fmap_id(self)
        ensures
            self.fmap(|x: A| x) == self,
    {
    }

    /// Functor law: mapping `f` then `g` is mapping their composition.
    pub proof fn lemma_fmap_compose<B, C>(self, f: spec_fn(A) -> B, g: spec_fn(B) -> C)
        ensures
            self.fmap(f).fmap(g) == self.fmap(|x: A| g(f(x))),
    {
    }

    /// With a function that always gives what `sf` says, `map_chirho` gives
    /// the layer mapped by `sf`.
    pub proof fn lemma_mapped_by_fmap<B, F: Fn(A) -> B>(self, f: F, sf: spec_fn(A) -> B, r: TermFChirho<B>)
        requires
            self.mapped_by(f, r),
            forall|x: A, y: B| #[trigger] call_ensures(f, (x,), y) ==> y == sf(x),
        ensures
            r == self.fmap(sf),
    {
    }

    /// Apply `f_chirho` to every recursive position, first to last.
    pub fn map_chirho<B, F>(self, f_chirho: F) -> (r: TermFChirho<B>) where F: Fn(A) -> B
        requires
            forall|i: int| 0 <= i < self.children_seq().len() ==> call_requires(f_chirho, (#[trigger] self.children_seq()[i],)),
        ensures
            self.mapped_by(f_chirho, r),
    {
        match self {
            TermFChirho::VarFChirho(v_chirho) => TermFChirho::VarFChirho(v_chirho),
            TermFChirho::IntFChirho(n_chirho) => TermFChirho::IntFChirho(n_chirho),
            TermFChirho::NilFChirho => TermFChirho::NilFChirho,
            TermFChirho::ConsFChirho(h_chirho, t_chirho) => {
                proof {
                    assert(self.children_seq()[0] == h_chirho);
                    assert(self.children_seq()[1] == t_chirho);
                }
                let h2 = f_chirho(h_chirho);
                let t2 = f_chirho(t_chirho);
                TermFChirho::ConsFChirho(h2, t2)
            },
            TermFChirho::SymFChirho(s_chirho) => TermFChirho::SymFChirho(s_chirho),
            TermFChirho::AppFChirho(f_val_chirho, a_chirho) => {
                proof {
                    assert(self.children_seq()[0] == f_val_chirho);
                    assert(self.children_seq()[1] == a_chirho);
                }
                let g2 = f_chirho(f_val_chirho);
                let a2 = f_chirho(a_chirho);
                TermFChirho::AppFChirho(g2, a2)
            },
        }
    }

    /// Apply a fallible `f_chirho` to every recursive position, first to last,
    /// stopping at the first error.
    pub fn traverse_chirho<B, E, F>(self, f_chirho: F) -> (r: Result<TermFChirho<B>, E>) where
        F: Fn(A) -> Result<B, E>,
        requires
            forall|i: int| 0 <= i < self.children_seq().len() ==> call_requires(f_chirho, (#[trigger] self.children_seq()[i],)),
        ensures
            match self {
                TermFChirho::ConsFChirho(x, y) | TermFChirho::AppFChirho(x, y) => match r {
                    Ok(l) => {
                        &&& l.children_seq().len() == 2
                        &&& (self is ConsFChirho <==> l is ConsFChirho)
                        &&& call_ensures(f_chirho, (x,), Ok(l.children_seq()[0]))
                        &&& call_ensures(f_chirho, (y,), Ok(l.children_seq()[1]))
                    },
                    Err(e) => call_ensures(f_chirho, (x,), Err(e)) || exists|b: B|
                        call_ensures(f_chirho, (x,), Ok::<B, E>(b)) && call_ensures(f_chirho, (y,), Err(e)),
                },
                TermFChirho::VarFChirho(v) => r == Ok::<TermFChirho<B>, E>(TermFChirho::VarFChirho(v)),
                TermFChirho::IntFChirho(n) => r == Ok::<TermFChirho<B>, E>(TermFChirho::IntFChirho(n)),
                TermFChirho::NilFChirho => r == Ok::<TermFChirho<B>, E>(TermFChirho::NilFChirho),
                TermFChirho::SymFChirho(s) => r == Ok::<TermFChirho<B>, E>(TermFChirho::SymFChirho(s)),
            },
    {
        match self {
            TermFChirho::VarFChirho(v_chirho) => Ok(TermFChirho::VarFChirho(v_chirho)),
            TermFChirho::IntFChirho(n_chirho) => Ok(TermFChirho::IntFChirho(n_chirho)),
            TermFChirho::NilFChirho => Ok(TermFChirho::NilFChirho),
            TermFChirho::ConsFChirho(h_chirho, t_chirho) => {
                proof {
                    assert(self.children_seq()[0] == h_chirho);
                    assert(self.children_seq()[1] == t_chirho);
                }
                let h2 = match f_chirho(h_chirho) {
                    Ok(b) => b,
                    Err(e) => {
                        return Err(e);
                    },
                };
                let t2 = match f_chirho(t_chirho) {
                    Ok(b) => b,
                    Err(e) => {
                        return Err(e);
                    },
                };
                let l = TermFChirho::ConsFChirho(h2, t2);
                proof {
                    assert(l.children_seq()[0] == h2);
                    assert(l.children_seq()[1] == t2);
                }
                Ok(l)
            },
            TermFChirho::SymFChirho(s_chirho) => Ok(TermFChirho::SymFChirho(s_chirho)),
            TermFChirho::AppFChirho(f_val_chirho, a_chirho) => {
                proof {
                    assert(self.children_seq()[0] == f_val_chirho);
                    assert(self.children_seq()[1] == a_chirho);
                }
                let g2 = match f_chirho(f_val_chirho) {
                    Ok(b) => b,
                    Err(e) => {
                        return Err(e);
                    },
                };
                let a2 = match f_chirho(a_chirho) {
                    Ok(b) => b,
                    Err(e) => {
                        return Err(e);
                    },
                };
                let l = TermFChirho::AppFChirho(g2, a2);
                proof {
                    assert(l.children_seq()[0] == g2);
                    assert(l.children_seq()[1] == a2);
                }
                Ok(l)
            },
        }
    }

    /// Whether the layer has no recursive positions.
    pub fn is_leaf_chirho(&self) -> (r: bool)
        ensures
            r == (self.children_seq().len() == 0),
    {
        match self {
            TermFChirho::ConsFChirho(_, _) | TermFChirho::AppFChirho(_, _) => false,
            _ => true,
        }
    }

    /// The recursive positions, by reference.
    pub fn children_chirho(&self) -> (r: Vec<&A>)
        ensures
            r@.len() == self.children_seq().len(),
            forall|i: int| 0 <= i < r@.len() ==> *r@[i] == self.children_seq()[i],
    {
        match self {
            TermFChirho::ConsFChirho(h_chirho, t_chirho) => vec![h_chirho, t_chirho],
            TermFChirho::AppFChirho(f_chirho, a_chirho) => vec![f_chirho, a_chirho],
            _ => Vec::new(),
        }
    }
}

/// Fixed point of a layer type: a term is a layer of terms.
#[derive(Debug, Clone, PartialEq, Eq, Hash)]
pub struct FixChirho<F> {
    /// The outer layer.
    pub unfix_chirho: Box<F>,
}

/// A term two layers deep.
pub type TermRecChirho = FixChirho<TermFChirho<FixChirho<TermFChirho<()>>>>;

/// An algebra: folds one layer of results into a result.
pub trait AlgebraChirho<F, A> {
    /// Fold one layer.
    fn apply_chirho(&self, layer_chirho: F) -> A;
}

/// A coalgebra: unfolds a seed into one layer of seeds.
pub trait CoalgebraChirho<F, A> {
    /// Unfold one seed.
    fn apply_chirho(&self, seed_chirho: A) -> F;
}

/// Every child of a layer is an id below `id`.
pub open spec fn children_below(l: TermFChirho<u32>, id: int) -> bool {
    forall|i: int| 0 <= i < l.children_seq().len() ==> (#[trigger] l.children_seq()[i]) < id
}

/// A store of term layers; the id of a layer is its position.
#[derive(Debug)]
pub struct TermStoreIndexedChirho {
    terms_chirho: Vec<TermFChirho<u32>>,
}

impl TermStoreIndexedChirho {
    /// The layers, by id.
    pub closed spec fn terms_m(&self) -> Seq<TermFChirho<u32>> {
        self.terms_chirho@
    }

    /// Every layer refers only to layers made before it, so folds terminate.
    pub open spec fn wf(&self) -> bool {
        forall|i: int| 0 <= i < self.terms_m().len() ==> children_below(#[trigger] self.terms_m()[i], i)
    }

    /// An empty store.
    pub fn new_chirho() -> (r: Self)
        ensures
            r.terms_m().len() == 0,
            r.wf(),
    {
        Self { terms_chirho: Vec::new() }
    }

    /// Add a layer; its id is the number of layers before it.
    pub fn intern_chirho(&mut self, layer_chirho: TermFChirho<u32>) -> (r: u32)
        requires
            old(self).terms_m().len() < u32::MAX,
        ensures
            r == old(self).terms_m().len(),
            final(self).terms_m() == old(self).terms_m().push(layer_chirho),
            final(self).wf() == (old(self).wf() && children_below(layer_chirho, r as int)),
    {
        let id_chirho = self.terms_chirho.len() as u32;
        let ghost before = self.terms_m();
        self.terms_chirho.push(layer_chirho);
        proof {
            assert(self.terms_m()[before.len() as int] == layer_chirho);
            if self.wf() {
                assert forall|i: int| 0 <= i < before.len() implies children_below(#[trigger] before[i], i) by {
                    assert(self.terms_m()[i] == before[i]);
                }
            }
            if old(self).wf() && children_below(layer_chirho, id_chirho as int) {
                assert forall|i: int| 0 <= i < self.terms_m().len() implies children_below(#[trigger] self.terms_m()[i], i) by {
                    if i < before.len() {
                        assert(self.terms_m()[i] == before[i]);
                    }
                }
            }
        }
        id_chirho
    }

    /// The layer with the id.
    pub fn get_layer_chirho(&self, id_chirho: u32) -> (r: TermFChirho<u32>)
        requires
            id_chirho < self.terms_m().len(),
        ensures
            r == self.terms_m()[id_chirho as int],
    {
        match &self.terms_chirho[id_chirho as usize] {
            TermFChirho::VarFChirho(v) => TermFChirho::VarFChirho(*v),
            TermFChirho::IntFChirho(n) => TermFChirho::IntFChirho(*n),
            TermFChirho::NilFChirho => TermFChirho::NilFChirho,
            TermFChirho::ConsFChirho(h, t) => TermFChirho::ConsFChirho(*h, *t),
            TermFChirho::SymFChirho(s) => TermFChirho::SymFChirho(*s),
            TermFChirho::AppFChirho(f, a) => TermFChirho::AppFChirho(*f, *a),
        }
    }

    /// Add a variable.
    pub fn var_chirho(&mut self, v_chirho: u32) -> (r: u32)
        requires
            old(self).terms_m().len() < u32::MAX,
        ensures
            r == old(self).terms_m().len(),
            final(self).terms_m() == old(self).terms_m().push(TermFChirho::VarFChirho(v_chirho)),
            final(self).wf() == old(self).wf(),
    {
        let r = self.intern_chirho(TermFChirho::VarFChirho(v_chirho));
        proof {
            assert(TermFChirho::<u32>::VarFChirho(v_chirho).children_seq() =~= Seq::<u32>::empty());
        }
        r
    }

    /// Add an integer.
    pub fn int_chirho(&mut self, n_chirho: i64) -> (r: u32)
        requires
            old(self).terms_m().len() < u32::MAX,
        ensures
            r == old(self).terms_m().len(),
            final(self).terms_m() == old(self).terms_m().push(TermFChirho::IntFChirho(n_chirho)),
            final(self).wf() == old(self).wf(),
    {
        let r = self.intern_chirho(TermFChirho::IntFChirho(n_chirho));
        proof {
            assert(TermFChirho::<u32>::IntFChirho(n_chirho).children_seq() =~= Seq::<u32>::empty());
        }
        r
    }

    /// Add nil.
    pub fn nil_chirho(&mut self) -> (r: u32)
        requires
            old(self).terms_m().len() < u32::MAX,
        ensures
            r == old(self).terms_m().len(),
            final(self).terms_m() == old(self).terms_m().push(TermFChirho::NilFChirho),
            final(self).wf() == old(self).wf(),
    {
        let r = self.intern_chirho(TermFChirho::NilFChirho);
        proof {
            assert(TermFChirho::<u32>::NilFChirho.children_seq() =~= Seq::<u32>::empty());
        }
        r
    }

    /// Add a cons cell of two stored terms.
    pub fn cons_chirho(&mut self, h_chirho: u32, t_chirho: u32) -> (r: u32)
        requires
            old(self).terms_m().len() < u32::MAX,
        ensures
            r == old(self).terms_m().len(),
            final(self).terms_m() == old(self).terms_m().push(TermFChirho::ConsFChirho(h_chirho, t_chirho)),
            final(self).wf() == (old(self).wf() && h_chirho < r && t_chirho < r),
    {
        let ghost l = TermFChirho::ConsFChirho(h_chirho, t_chirho);
        let r = self.intern_chirho(TermFChirho::ConsFChirho(h_chirho, t_chirho));
        proof {
            assert(l.children_seq()[0] == h_chirho);
            assert(l.children_seq()[1] == t_chirho);
        }
        r
    }

    /// Add a symbol.
    pub fn sym_chirho(&mut self, s_chirho: u32) -> (r: u32)
        requires
            old(self).terms_m().len() < u32::MAX,
        ensures
            r == old(self).terms_m().len(),
            final(self).terms_m() == old(self).terms_m().push(TermFChirho::SymFChirho(s_chirho)),
            final(self).wf() == old(self).wf(),
    {
        let r = self.intern_chirho(TermFChirho::SymFChirho(s_chirho));
        proof {
            assert(TermFChirho::<u32>::SymFChirho(s_chirho).children_seq() =~= Seq::<u32>::empty());
        }
        r
    }

    /// Add an application of two stored terms.
    pub fn app_chirho(&mut self, f_chirho: u32, a_chirho: u32) -> (r: u32)
        requires
            old(self).terms_m().len() < u32::MAX,
        ensures
            r == old(self).terms_m().len(),
            final(self).terms_m() == old(self).terms_m().push(TermFChirho::AppFChirho(f_chirho, a_chirho)),
            final(self).wf() == (old(self).wf() && f_chirho < r && a_chirho < r),
    {
        let ghost l = TermFChirho::AppFChirho(f_chirho, a_chirho);
        let r = self.intern_chirho(TermFChirho::AppFChirho(f_chirho, a_chirho));
        proof {
            assert(l.children_seq()[0] == f_chirho);
            assert(l.children_seq()[1] == a_chirho);
        }
        r
    }
}

impl Default for TermStoreIndexedChirho {
    fn default() -> (r: Self)
        ensures
            r.terms_m().len() == 0,
    {
        Self::new_chirho()
    }
}

/// The results of a fold at a node and at the nodes below it.
pub enum FoldTreeChirho<A> {
    /// Result at a leaf.
    LeafChirho(A),
    /// Result at a pair, with the trees of its two parts.
    NodeChirho(A, Box<FoldTreeChirho<A>>, Box<FoldTreeChirho<A>>),
}

impl<A> FoldTreeChirho<A> {
    /// The result at the top.
    pub open spec fn root(self) -> A {
        match self {
            FoldTreeChirho::LeafChirho(r) => r,
            FoldTreeChirho::NodeChirho(r, _, _) => r,
        }
    }
}

/// `t` records a fold of the term `id` of `terms` with `alg`, children first:
/// each result is a result of `alg` on the layer with its children's results.
pub open spec fn cata_tree<A, F: Fn(TermFChirho<A>) -> A>(
    terms: Seq<TermFChirho<u32>>,
    alg: F,
    id: int,
    t: FoldTreeChirho<A>,
) -> bool
    decreases t,
{
    &&& 0 <= id < terms.len()
    &&& match (terms[id], t) {
        (TermFChirho::VarFChirho(v), FoldTreeChirho::LeafChirho(r)) => call_ensures(
            alg,
            (TermFChirho::<A>::VarFChirho(v),),
            r,
        ),
        (TermFChirho::IntFChirho(n), FoldTreeChirho::LeafChirho(r)) => call_ensures(
            alg,
            (TermFChirho::<A>::IntFChirho(n),),
            r,
        ),
        (TermFChirho::NilFChirho, FoldTreeChirho::LeafChirho(r)) => call_ensures(
            alg,
            (TermFChirho::<A>::NilFChirho,),
            r,
        ),
        (TermFChirho::SymFChirho(s), FoldTreeChirho::LeafChirho(r)) => call_ensures(
            alg,
            (TermFChirho::<A>::SymFChirho(s),),
            r,
        ),
        (TermFChirho::ConsFChirho(h, tl), FoldTreeChirho::NodeChirho(r, th, tt)) => {
            &&& cata_tree(terms, alg, h as int, *th)
            &&& cata_tree(terms, alg, tl as int, *tt)
            &&& call_ensures(alg, (TermFChirho::ConsFChirho(th.root(), tt.root()),), r)
        },
        (TermFChirho::AppFChirho(f, a), FoldTreeChirho::NodeChirho(r, tf, ta)) => {
            &&& cata_tree(terms, alg, f as int, *tf)
            &&& cata_tree(terms, alg, a as int, *ta)
            &&& call_ensures(alg, (TermFChirho::AppFChirho(tf.root(), ta.root()),), r)
        },
        _ => false,
    }
}

/// `r` is a result of folding the term `id` of `terms` with `alg`, children first.
pub open spec fn cata_rel<A, F: Fn(TermFChirho<A>) -> A>(
    terms: Seq<TermFChirho<u32>>,
    alg: F,
    id: int,
    r: A,
) -> bool {
    exists|t: FoldTreeChirho<A>| #[trigger] cata_tree(terms, alg, id, t) && t.root() == r
}

/// Fold the term `term_id_chirho` with the algebra `alg_chirho`, children first.
pub fn cata_indexed_chirho<A, F>(store_chirho: &TermStoreIndexedChirho, alg_chirho: F, term_id_chirho: u32) -> (r: A) where
    F: Fn(TermFChirho<A>) -> A,
    A: Clone,
    requires
        store_chirho.wf(),
        term_id_chirho < store_chirho.terms_m().len(),
        forall|l: TermFChirho<A>| call_requires(alg_chirho, (l,)),
    ensures
        cata_rel(store_chirho.terms_m(), alg_chirho, term_id_chirho as int, r),
{
    let (r, Ghost(t)) = cata_go_chirho(store_chirho, &alg_chirho, term_id_chirho);
    r
}

fn cata_go_chirho<A, F>(store: &TermStoreIndexedChirho, alg: &F, id: u32) -> (r: (A, Ghost<FoldTreeChirho<A>>)) where
    F: Fn(TermFChirho<A>) -> A,
    requires
        store.wf(),
        id < store.terms_m().len(),
        forall|l: TermFChirho<A>| call_requires(*alg, (l,)),
    ensures
        cata_tree(store.terms_m(), *alg, id as int, r.1@),
        r.1@.root() == r.0,
    decreases id,
{
    let layer = store.get_layer_chirho(id);
    proof {
        assert(children_below(store.terms_m()[id as int], id as int));
    }
    match layer {
        TermFChirho::VarFChirho(v) => {
            let r = alg(TermFChirho::VarFChirho(v));
            (r, Ghost(FoldTreeChirho::LeafChirho(r)))
        },
        TermFChirho::IntFChirho(n) => {
            let r = alg(TermFChirho::IntFChirho(n));
            (r, Ghost(FoldTreeChirho::LeafChirho(r)))
        },
        TermFChirho::NilFChirho => {
            let r = alg(TermFChirho::NilFChirho);
            (r, Ghost(FoldTreeChirho::LeafChirho(r)))
        },
        TermFChirho::SymFChirho(s) => {
            let r = alg(TermFChirho::SymFChirho(s));
            (r, Ghost(FoldTreeChirho::LeafChirho(r)))
        },
        TermFChirho::ConsFChirho(h, t) => {
            proof {
                assert(layer.children_seq()[0] == h);
                assert(layer.children_seq()[1] == t);
            }
            let (rh, Ghost(th)) = cata_go_chirho(store, alg, h);
            let (rt, Ghost(tt)) = cata_go_chirho(store, alg, t);
            let r = alg(TermFChirho::ConsFChirho(rh, rt));
            (r, Ghost(FoldTreeChirho::NodeChirho(r, Box::new(th), Box::new(tt))))
        },
        TermFChirho::AppFChirho(f, a) => {
            proof {
                assert(layer.children_seq()[0] == f);
                assert(layer.children_seq()[1] == a);
            }
            let (rf, Ghost(tf)) = cata_go_chirho(store, alg, f);
            let (ra, Ghost(ta)) = cata_go_chirho(store, alg, a);
            let r = alg(TermFChirho::AppFChirho(rf, ra));
            (r, Ghost(FoldTreeChirho::NodeChirho(r, Box::new(tf), Box::new(ta))))
        },
    }
}

/// `t` records a fold of the term `id` of `terms` with `alg`, where each
/// recursive position carries its result together with the id of its subterm.
pub open spec fn para_tree<A, F: Fn(TermFChirho<(A, u32)>) -> A>(
    terms: Seq<TermFChirho<u32>>,
    alg: F,
    id: int,
    t: FoldTreeChirho<A>,
) -> bool
    decreases t,
{
    &&& 0 <= id < terms.len()
    &&& match (terms[id], t) {
        (TermFChirho::VarFChirho(v), FoldTreeChirho::LeafChirho(r)) => call_ensures(
            alg,
            (TermFChirho::<(A, u32)>::VarFChirho(v),),
            r,
        ),
        (TermFChirho::IntFChirho(n), FoldTreeChirho::LeafChirho(r)) => call_ensures(
            alg,
            (TermFChirho::<(A, u32)>::IntFChirho(n),),
            r,
        ),
        (TermFChirho::NilFChirho, FoldTreeChirho::LeafChirho(r)) => call_ensures(
            alg,
            (TermFChirho::<(A, u32)>::NilFChirho,),
            r,
        ),
        (TermFChirho::SymFChirho(s), FoldTreeChirho::LeafChirho(r)) => call_ensures(
            alg,
            (TermFChirho::<(A, u32)>::SymFChirho(s),),
            r,
        ),
        (TermFChirho::ConsFChirho(h, tl), FoldTreeChirho::NodeChirho(r, th, tt)) => {
            &&& para_tree(terms, alg, h as int, *th)
            &&& para_tree(terms, alg, tl as int, *tt)
            &&& call_ensures(alg, (TermFChirho::ConsFChirho((th.root(), h), (tt.root(), tl)),), r)
        },
        (TermFChirho::AppFChirho(f, a), FoldTreeChirho::NodeChirho(r, tf, ta)) => {
            &&& para_tree(terms, alg, f as int, *tf)
            &&& para_tree(terms, alg, a as int, *ta)
            &&& call_ensures(alg, (TermFChirho::AppFChirho((tf.root(), f), (ta.root(), a)),), r)
        },
        _ => false,
    }
}

/// `r` is a result of folding the term `id` of `terms` with `alg`, where each
/// recursive position carries its result together with the id of its subterm.
pub open spec fn para_rel<A, F: Fn(TermFChirho<(A, u32)>) -> A>(
    terms: Seq<TermFChirho<u32>>,
    alg: F,
    id: int,
    r: A,
) -> bool {
    exists|t: FoldTreeChirho<A>| #[trigger] para_tree(terms, alg, id, t) && t.root() == r
}

/// Fold the term `term_id_chirho` with `alg_chirho`, which sees each child's
/// result together with the child's id.
pub fn para_indexed_chirho<A, F>(store_chirho: &TermStoreIndexedChirho, alg_chirho: F, term_id_chirho: u32) -> (r: A) where
    F: Fn(TermFChirho<(A, u32)>) -> A,
    A: Clone,
    requires
        store_chirho.wf(),
        term_id_chirho < store_chirho.terms_m().len(),
        forall|l: TermFChirho<(A, u32)>| call_requires(alg_chirho, (l,)),
    ensures
        para_rel(store_chirho.terms_m(), alg_chirho, term_id_chirho as int, r),
{
    let (r, Ghost(t)) = para_go_chirho(store_chirho, &alg_chirho, term_id_chirho);
    r
}

fn para_go_chirho<A, F>(store: &TermStoreIndexedChirho, alg: &F, id: u32) -> (r: (A, Ghost<FoldTreeChirho<A>>)) where
    F: Fn(TermFChirho<(A, u32)>) -> A,
    requires
        store.wf(),
        id < store.terms_m().len(),
        forall|l: TermFChirho<(A, u32)>| call_requires(*alg, (l,)),
    ensures
        para_tree(store.terms_m(), *alg, id as int, r.1@),
        r.1@.root() == r.0,
    decreases id,
{
    let layer = store.get_layer_chirho(id);
    proof {
        assert(children_below(store.terms_m()[id as int], id as int));
    }
    match layer {
        TermFChirho::VarFChirho(v) => {
            let r = alg(TermFChirho::VarFChirho(v));
            (r, Ghost(FoldTreeChirho::LeafChirho(r)))
        },
        TermFChirho::IntFChirho(n) => {
            let r = alg(TermFChirho::IntFChirho(n));
            (r, Ghost(FoldTreeChirho::LeafChirho(r)))
        },
        TermFChirho::NilFChirho => {
            let r = alg(TermFChirho::NilFChirho);
            (r, Ghost(FoldTreeChirho::LeafChirho(r)))
        },
        TermFChirho::SymFChirho(s) => {
            let r = alg(TermFChirho::SymFChirho(s));
            (r, Ghost(FoldTreeChirho::LeafChirho(r)))
        },
        TermFChirho::ConsFChirho(h, t) => {
            proof {
                assert(layer.children_seq()[0] == h);
                assert(layer.children_seq()[1] == t);
            }
            let (rh, Ghost(th)) = para_go_chirho(store, alg, h);
            let (rt, Ghost(tt)) = para_go_chirho(store, alg, t);
            let r = alg(TermFChirho::ConsFChirho((rh, h), (rt, t)));
            (r, Ghost(FoldTreeChirho::NodeChirho(r, Box::new(th), Box::new(tt))))
        },
        TermFChirho::AppFChirho(f, a) => {
            proof {
                assert(layer.children_seq()[0] == f);
                assert(layer.children_seq()[1] == a);
            }
            let (rf, Ghost(tf)) = para_go_chirho(store, alg, f);
            let (ra, Ghost(ta)) = para_go_chirho(store, alg, a);
            let r = alg(TermFChirho::AppFChirho((rf, f), (ra, a)));
            (r, Ghost(FoldTreeChirho::NodeChirho(r, Box::new(tf), Box::new(ta))))
        },
    }
}

/// Groundness of one layer: a variable is not ground; a leaf otherwise is; a pair
/// is ground when both parts are.
pub fn is_ground_algebra_chirho(layer_chirho: TermFChirho<bool>) -> (r: bool)
    ensures
        r == match layer_chirho {
            TermFChirho::VarFChirho(_) => false,
            TermFChirho::ConsFChirho(h, t) => h && t,
            TermFChirho::AppFChirho(f, a) => f && a,
            _ => true,
        },
{
    match layer_chirho {
        TermFChirho::VarFChirho(_) => false,
        TermFChirho::IntFChirho(_) | TermFChirho::NilFChirho | TermFChirho::SymFChirho(_) => true,
        TermFChirho::ConsFChirho(h_chirho, t_chirho) => h_chirho && t_chirho,
        TermFChirho::AppFChirho(f_chirho, a_chirho) => f_chirho && a_chirho,
    }
}

/// Union of two sets of variable ids.
fn union_chirho(a: HashSet<u32>, b: HashSet<u32>) -> (r: HashSet<u32>)
    ensures
        r@ == a@.union(b@),
{
    let mut s = a;
    let ghost a0 = a@;
    let ghost mut seen: Set<u32> = Set::empty();
    let keys = b.iter();
    proof {
        assert(keys.remaining().unref().to_set() == b@);
        assert(keys.remaining().unref() =~= keys.remaining().map_values(|p: &u32| *p));
    }
    for x in it: keys
        invariant
            it.seq().map_values(|p: &u32| *p).to_set() == b@,
            seen == it.seq().take(it.index() as int).map_values(|p: &u32| *p).to_set(),
            it.index() == it.seq().len() ==> seen == b@,
            s@ == a0.union(seen),
    {
        s.insert(*x);
        proof {
            seen = seen.insert(*x);
        }
        proof {
            let done = it.seq().take(it.index() as int).map_values(|p: &u32| *p);
            assert(it.seq().take(it.index() + 1).map_values(|p: &u32| *p) =~= done.push(*x));
            done.lemma_push_to_set_commute(*x);
            assert(s@ =~= a0.union(seen));
            assert(it.index() + 1 == it.seq().len() ==> it.seq().take(it.index() + 1) =~= it.seq());
        }
    }
    s
}

/// The variables of one layer: a variable's own id, none for other leaves, the
/// union of both parts for a pair.
pub fn vars_algebra_chirho(layer_chirho: TermFChirho<HashSet<u32>>) -> (r: HashSet<u32>)
    ensures
        r@ == match layer_chirho {
            TermFChirho::VarFChirho(v) => set![v],
            TermFChirho::ConsFChirho(h, t) => h@.union(t@),
            TermFChirho::AppFChirho(f, a) => f@.union(a@),
            _ => Set::empty(),
        },
{
    match layer_chirho {
        TermFChirho::VarFChirho(v_chirho) => {
            let mut set_chirho: HashSet<u32> = HashSet::new();
            set_chirho.insert(v_chirho);
            proof {
                assert(set_chirho@ =~= set![v_chirho]);
            }
            set_chirho
        },
        TermFChirho::IntFChirho(_) | TermFChirho::NilFChirho | TermFChirho::SymFChirho(_) => HashSet::new(),
        TermFChirho::ConsFChirho(h_chirho, t_chirho) => union_chirho(h_chirho, t_chirho),
        TermFChirho::AppFChirho(f_chirho, a_chirho) => union_chirho(f_chirho, a_chirho),
    }
}

/// Node count of one layer: one for a leaf, one plus both parts for a pair.
pub fn size_algebra_chirho(layer_chirho: TermFChirho<usize>) -> (r: usize)
    requires
        layer_chirho matches TermFChirho::ConsFChirho(h, t) ==> 1 + h + t <= usize::MAX,
        layer_chirho matches TermFChirho::AppFChirho(f, a) ==> 1 + f + a <= usize::MAX,
    ensures
        r == match layer_chirho {
            TermFChirho::ConsFChirho(h, t) => 1 + h + t,
            TermFChirho::AppFChirho(f, a) => 1 + f + a,
            _ => 1,
        },
{
    match layer_chirho {
        TermFChirho::VarFChirho(_) | TermFChirho::IntFChirho(_) | TermFChirho::NilFChirho | TermFChirho::SymFChirho(_) => 1,
        TermFChirho::ConsFChirho(h_chirho, t_chirho) => 1 + h_chirho + t_chirho,
        TermFChirho::AppFChirho(f_chirho, a_chirho) => 1 + f_chirho + a_chirho,
    }
}

/// Depth of one layer: zero for a leaf, one more than the deeper part for a pair.
pub fn depth_algebra_chirho(layer_chirho: TermFChirho<usize>) -> (r: usize)
    requires
        layer_chirho matches TermFChirho::ConsFChirho(h, t) ==> h < usize::MAX && t < usize::MAX,
        layer_chirho matches TermFChirho::AppFChirho(f, a) ==> f < usize::MAX && a < usize::MAX,
    ensures
        r == match layer_chirho {
            TermFChirho::ConsFChirho(h, t) => 1 + if h >= t { h } else { t },
            TermFChirho::AppFChirho(f, a) => 1 + if f >= a { f } else { a },
            _ => 0,
        },
{
    match layer_chirho {
        TermFChirho::VarFChirho(_) | TermFChirho::IntFChirho(_) | TermFChirho::NilFChirho | TermFChirho::SymFChirho(_) => 0,
        TermFChirho::ConsFChirho(h_chirho, t_chirho) => 1 + if h_chirho >= t_chirho { h_chirho } else { t_chirho },
        TermFChirho::AppFChirho(f_chirho, a_chirho) => 1 + if f_chirho >= a_chirho { f_chirho } else { a_chirho },
    }
}

/// Occurs check of one variable, as an algebra.
pub struct OccursCheckAlgebraChirho {
    /// The variable looked for.
    pub target_var_chirho: u32,
}

impl OccursCheckAlgebraChirho {
    /// Whether the variable occurs in the layer: it is the variable itself, or
    /// occurs in either part of a pair.
    pub fn check_chirho(&self, layer_chirho: TermFChirho<bool>) -> (r: bool)
        ensures
            r == match layer_chirho {
                TermFChirho::VarFChirho(v) => v == self.target_var_chirho,
                TermFChirho::ConsFChirho(h, t) => h || t,
                TermFChirho::AppFChirho(f, a) => f || a,
                _ => false,
            },
    {
        match layer_chirho {
            TermFChirho::VarFChirho(v_chirho) => v_chirho == self.target_var_chirho,
            TermFChirho::IntFChirho(_) | TermFChirho::NilFChirho | TermFChirho::SymFChirho(_) => false,
            TermFChirho::ConsFChirho(h_chirho, t_chirho) => h_chirho || t_chirho,
            TermFChirho::AppFChirho(f_chirho, a_chirho) => f_chirho || a_chirho,
        }
    }
}

/// Number of nodes of the term `id` of `terms`.
pub open spec fn term_size(terms: Seq<TermFChirho<u32>>, id: int) -> int
    decreases id,
{
    if 0 <= id < terms.len() {
        match terms[id] {
            TermFChirho::ConsFChirho(h, t) | TermFChirho::AppFChirho(h, t) => if h < id && t < id {
                1 + term_size(terms, h as int) + term_size(terms, t as int)
            } else {
                0
            },
            _ => 1,
        }
    } else {
        0
    }
}

/// The term `id` of `terms` has no variable.
pub open spec fn term_ground(terms: Seq<TermFChirho<u32>>, id: int) -> bool
    decreases id,
{
    if 0 <= id < terms.len() {
        match terms[id] {
            TermFChirho::VarFChirho(_) => false,
            TermFChirho::ConsFChirho(h, t) | TermFChirho::AppFChirho(h, t) => h < id && t < id && term_ground(
                terms,
                h as int,
            ) && term_ground(terms, t as int),
            _ => true,
        }
    } else {
        false
    }
}

/// Node count of one layer of sizes.
pub open spec fn size_layer(l: TermFChirho<usize>) -> int {
    match l {
        TermFChirho::ConsFChirho(h, t) | TermFChirho::AppFChirho(h, t) => 1 + h + t,
        _ => 1,
    }
}

/// Groundness of one layer of groundness flags.
pub open spec fn ground_layer(l: TermFChirho<bool>) -> bool {
    match l {
        TermFChirho::VarFChirho(_) => false,
        TermFChirho::ConsFChirho(h, t) | TermFChirho::AppFChirho(h, t) => h && t,
        _ => true,
    }
}

/// The size algebra computes the node count of a layer.
pub proof fn lemma_size_algebra_layer()
    ensures
        forall|l: TermFChirho<usize>, r: usize|
            call_ensures(size_algebra_chirho, (l,), r) ==> r == size_layer(l),
{
}

/// The groundness algebra computes the groundness of a layer.
pub proof fn lemma_ground_algebra_layer()
    ensures
        forall|l: TermFChirho<bool>, r: bool|
            call_ensures(is_ground_algebra_chirho, (l,), r) ==> r == ground_layer(l),
{
}

/// Folding with an algebra that counts the nodes of each layer (such as
/// `size_algebra_chirho`) gives the node count of the term.
pub proof fn lemma_cata_size<F: Fn(TermFChirho<usize>) -> usize>(
    terms: Seq<TermFChirho<u32>>,
    alg: F,
    id: int,
    r: usize,
)
    requires
        forall|l: TermFChirho<usize>, x: usize| call_ensures(alg, (l,), x) ==> x == size_layer(l),
        forall|i: int| 0 <= i < terms.len() ==> children_below(#[trigger] terms[i], i),
        cata_rel(terms, alg, id, r),
    ensures
        r == term_size(terms, id),
{
    let t = choose|t: FoldTreeChirho<usize>| #[trigger] cata_tree(terms, alg, id, t) && t.root() == r;
    lemma_size_tree(terms, alg, id, t);
}

proof fn lemma_size_tree<F: Fn(TermFChirho<usize>) -> usize>(
    terms: Seq<TermFChirho<u32>>,
    alg: F,
    id: int,
    t: FoldTreeChirho<usize>,
)
    requires
        forall|l: TermFChirho<usize>, x: usize| call_ensures(alg, (l,), x) ==> x == size_layer(l),
        forall|i: int| 0 <= i < terms.len() ==> children_below(#[trigger] terms[i], i),
        cata_tree(terms, alg, id, t),
    ensures
        t.root() == term_size(terms, id),
    decreases t,
{
    match (terms[id], t) {
        (TermFChirho::ConsFChirho(h, tl), FoldTreeChirho::NodeChirho(r, th, tt)) => {
            assert(terms[id].children_seq()[0] == h && terms[id].children_seq()[1] == tl);
            assert(children_below(terms[id], id));
            lemma_size_tree(terms, alg, h as int, *th);
            lemma_size_tree(terms, alg, tl as int, *tt);
        },
        (TermFChirho::AppFChirho(h, tl), FoldTreeChirho::NodeChirho(r, th, tt)) => {
            assert(terms[id].children_seq()[0] == h && terms[id].children_seq()[1] == tl);
            assert(children_below(terms[id], id));
            lemma_size_tree(terms, alg, h as int, *th);
            lemma_size_tree(terms, alg, tl as int, *tt);
        },
        _ => {},
    }
}

/// Folding with an algebra that decides groundness of each layer (such as
/// `is_ground_algebra_chirho`) tells whether the term has no variable.
pub proof fn lemma_cata_ground<F: Fn(TermFChirho<bool>) -> bool>(
    terms: Seq<TermFChirho<u32>>,
    alg: F,
    id: int,
    r: bool,
)
    requires
        forall|l: TermFChirho<bool>, x: bool| call_ensures(alg, (l,), x) ==> x == ground_layer(l),
        forall|i: int| 0 <= i < terms.len() ==> children_below(#[trigger] terms[i], i),
        cata_rel(terms, alg, id, r),
    ensures
        r == term_ground(terms, id),
{
    let t = choose|t: FoldTreeChirho<bool>| #[trigger] cata_tree(terms, alg, id, t) && t.root() == r;
    lemma_ground_tree(terms, alg, id, t);
}

proof fn lemma_ground_tree<F: Fn(TermFChirho<bool>) -> bool>(
    terms: Seq<TermFChirho<u32>>,
    alg: F,
    id: int,
    t: FoldTreeChirho<bool>,
)
    requires
        forall|l: TermFChirho<bool>, x: bool| call_ensures(alg, (l,), x) ==> x == ground_layer(l),
        forall|i: int| 0 <= i < terms.len() ==> children_below(#[trigger] terms[i], i),
        cata_tree(terms, alg, id, t),
    ensures
        t.root() == term_ground(terms, id),
    decreases t,
{
    match (terms[id], t) {
        (TermFChirho::ConsFChirho(h, tl), FoldTreeChirho::NodeChirho(r, th, tt)) => {
            assert(terms[id].children_seq()[0] == h && terms[id].children_seq()[1] == tl);
            assert(children_below(terms[id], id));
            lemma_ground_tree(terms, alg, h as int, *th);
            lemma_ground_tree(terms, alg, tl as int, *tt);
        },
        (TermFChirho::AppFChirho(h, tl), FoldTreeChirho::NodeChirho(r, th, tt)) => {
            assert(terms[id].children_seq()[0] == h && terms[id].children_seq()[1] == tl);
            assert(children_below(terms[id], id));
            lemma_ground_tree(terms, alg, h as int, *th);
            lemma_ground_tree(terms, alg, tl as int, *tt);
        },
        _ => {},
    }
}

} // verus!
