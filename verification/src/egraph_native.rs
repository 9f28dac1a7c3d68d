//! E-graph over nodes of arity at most two: e-classes kept in a flat
//! union-find, nodes hash-consed by their canonical form, a small analysis
//! per class (groundness, a constant) and congruence closure on rebuild.

use vstd::prelude::*;
use vstd::string::StringSliceAdditionalSpecFns;
use crate::hardware::BitVec64Chirho;
use crate::bits::{bit64, lemma_and_bits};
use crate::recursion::{TermFChirho, ground_layer};
use crate::union_find::{UnionFindChirho, flat, roots, relabel, lemma_roots_finite, lemma_relabel_roots};

verus! {

/// E-node identifier (index into the nodes).
pub type ENodeIdChirho = u32;

/// E-class identifier (index into the union-find).
pub type EClassIdChirho = u32;

/// A term node whose children are e-classes.
#[derive(Debug, Clone, Copy, PartialEq, Eq, Hash, Structural)]
pub enum ENodeChirho {
    /// Nil / unit value.
    NilChirho,
    /// Integer constant.
    IntChirho(i64),
    /// Interned symbol.
    SymChirho(u32),
    /// Cons cell (head, tail).
    ConsChirho(u32, u32),
    /// Application (function, argument).
    AppChirho(u32, u32),
}

/// The children of `n` are classes below `len`.
pub open spec fn children_ok(n: ENodeChirho, len: int) -> bool {
    match n {
        ENodeChirho::ConsChirho(h, t) => h < len && t < len,
        ENodeChirho::AppChirho(f, a) => f < len && a < len,
        _ => true,
    }
}

/// A symbol node names an interned symbol below `len`.
pub open spec fn symbol_ok(n: ENodeChirho, len: int) -> bool {
    match n {
        ENodeChirho::SymChirho(s) => s < len,
        _ => true,
    }
}

/// `n` with its children replaced by their roots in `p`.
pub open spec fn canon(n: ENodeChirho, p: Seq<u32>) -> ENodeChirho {
    match n {
        ENodeChirho::ConsChirho(h, t) => ENodeChirho::ConsChirho(p[h as int], p[t as int]),
        ENodeChirho::AppChirho(f, a) => ENodeChirho::AppChirho(p[f as int], p[a as int]),
        _ => n,
    }
}

impl ENodeChirho {
    /// The children of the node, head or function first.
    pub fn children_chirho(&self) -> (r: [Option<u32>; 2])
        ensures
            r@ == match *self {
                ENodeChirho::ConsChirho(h, t) => seq![Some(h), Some(t)],
                ENodeChirho::AppChirho(f, a) => seq![Some(f), Some(a)],
                _ => seq![None::<u32>, None::<u32>],
            },
    {
        let r = match *self {
            ENodeChirho::ConsChirho(h, t) => [Some(h), Some(t)],
            ENodeChirho::AppChirho(f, a) => [Some(f), Some(a)],
            _ => [None, None],
        };
        assert(r@ =~= match *self {
            ENodeChirho::ConsChirho(h, t) => seq![Some(h), Some(t)],
            ENodeChirho::AppChirho(f, a) => seq![Some(f), Some(a)],
            _ => seq![None::<u32>, None::<u32>],
        });
        r
    }

    /// The node with its children mapped to their roots.
    pub fn canonicalize_chirho(&self, uf_chirho: &UnionFindChirho) -> (r: Self)
        requires
            uf_chirho.wf(),
            children_ok(*self, uf_chirho.rep().len() as int),
        ensures
            r == canon(*self, uf_chirho.rep()),
    {
        match *self {
            ENodeChirho::ConsChirho(h, t) => ENodeChirho::ConsChirho(
                uf_chirho.find_immut_chirho(h),
                uf_chirho.find_immut_chirho(t),
            ),
            ENodeChirho::AppChirho(f, a) => ENodeChirho::AppChirho(
                uf_chirho.find_immut_chirho(f),
                uf_chirho.find_immut_chirho(a),
            ),
            other => other,
        }
    }
}

/// What is known of an e-class.
#[derive(Debug, Clone, Copy, Default)]
pub struct EClassDataChirho {
    /// No logic variable below the class.
    pub is_ground_chirho: bool,
    /// The integer the class stands for, if any.
    pub constant_chirho: Option<i64>,
    /// Domain as a bitmask.
    pub domain_chirho: BitVec64Chirho,
}

/// A symbol name of a logic variable starts with `_v`.
pub open spec fn is_var_name(s: Seq<u8>) -> bool {
    s.len() >= 2 && s[0] == 95u8 && s[1] == 118u8
}

/// Decimal digits of `n`, most significant first.
pub open spec fn dec_digits(n: nat) -> Seq<u8>
    decreases n,
{
    if n < 10 {
        seq![(48 + n) as u8]
    } else {
        dec_digits(n / 10).push((48 + n % 10) as u8)
    }
}

/// Name of the `n`-th fresh variable: `_v` followed by `n` in decimal.
pub open spec fn var_name(n: nat) -> Seq<u8> {
    seq![95u8, 118u8] + dec_digits(n)
}

/// Two classes hold different constants.
pub open spec fn conflict(d1: EClassDataChirho, d2: EClassDataChirho) -> bool {
    &&& d1.constant_chirho is Some
    &&& d2.constant_chirho is Some
    &&& d1.constant_chirho != d2.constant_chirho
}

/// The data of two classes joined.
pub open spec fn merged(a: EClassDataChirho, b: EClassDataChirho) -> EClassDataChirho {
    EClassDataChirho {
        is_ground_chirho: a.is_ground_chirho || b.is_ground_chirho,
        constant_chirho: if a.constant_chirho is Some { a.constant_chirho } else { b.constant_chirho },
        domain_chirho: BitVec64Chirho(a.domain_chirho.0 & b.domain_chirho.0),
    }
}

/// Every two ids that share a root in `p` share one in `q`.
pub open spec fn coarser(p: Seq<u32>, q: Seq<u32>) -> bool {
    &&& p.len() == q.len()
    &&& forall|i: int, j: int|
        #![trigger q[i], q[j]]
        0 <= i < p.len() && 0 <= j < p.len() && p[i] == p[j] ==> q[i] == q[j]
}

/// Joining two roots keeps every earlier sharing.
pub proof fn lemma_relabel_coarser(p: Seq<u32>, ra: u32, rb: u32)
    ensures
        coarser(p, relabel(p, ra, rb)),
{
}

/// Sharing is kept along a chain of joins.
pub proof fn lemma_coarser_trans(p: Seq<u32>, q: Seq<u32>, r: Seq<u32>)
    requires
        coarser(p, q),
        coarser(q, r),
    ensures
        coarser(p, r),
{
    assert forall|i: int, j: int| 0 <= i < p.len() && 0 <= j < p.len() && p[i] == p[j] implies r[i] == r[j] by {
        assert(q[i] == q[j]);
    }
}

/// A map keeps every sharing of itself.
pub proof fn lemma_coarser_refl(p: Seq<u32>)
    ensures
        coarser(p, p),
{
}

/// `q` was a root of `p0` and lies in the class of `r` under `p`.
pub open spec fn in_class(p0: Seq<u32>, p: Seq<u32>, q: int, r: int) -> bool {
    0 <= q < p0.len() && p0[q] == q && p[q] == r
}

/// The class data `d` under roots `p` combines the data `d0` of the roots of
/// `p0` that each class took in: a class is ground when one of them was, holds
/// a constant exactly when one of them held it, and its domain is the
/// intersection of theirs. Every root of `p` was a root of `p0`.
pub open spec fn summarizes(d0: Seq<EClassDataChirho>, p0: Seq<u32>, d: Seq<EClassDataChirho>, p: Seq<u32>) -> bool {
    &&& p0.len() == p.len()
    &&& d0.len() == p0.len()
    &&& d.len() == p.len()
    &&& forall|r: int| 0 <= r < p.len() && p[r] == r ==> {
        &&& p0[r] == r
        &&& (#[trigger] d[r]).is_ground_chirho == exists|q: int| in_class(p0, p, q, r) && d0[q].is_ground_chirho
        &&& forall|c: i64| d[r].constant_chirho == Some(c) <==> exists|q: int| in_class(p0, p, q, r) && d0[q].constant_chirho == Some(c)
        &&& forall|j: int| bit64(d[r].domain_chirho.0, j) <==> (0 <= j < 64 && forall|q: int| in_class(p0, p, q, r) ==> bit64(d0[q].domain_chirho.0, j))
    }
}

/// Before any join, every class sums up just its own root.
pub proof fn lemma_summarizes_refl(d: Seq<EClassDataChirho>, p: Seq<u32>)
    requires
        flat(p),
        d.len() == p.len(),
    ensures
        summarizes(d, p, d, p),
{
    assert forall|r: int| 0 <= r < p.len() && p[r] == r implies {
        &&& p[r] == r
        &&& (#[trigger] d[r]).is_ground_chirho == exists|q: int| in_class(p, p, q, r) && d[q].is_ground_chirho
        &&& forall|c: i64| d[r].constant_chirho == Some(c) <==> exists|q: int| in_class(p, p, q, r) && d[q].constant_chirho == Some(c)
        &&& forall|j: int| bit64(d[r].domain_chirho.0, j) <==> (0 <= j < 64 && forall|q: int| in_class(p, p, q, r) ==> bit64(d[q].domain_chirho.0, j))
    } by {
        assert(in_class(p, p, r, r));
        assert forall|q: int| in_class(p, p, q, r) implies q == r by {}
    }
}

/// Joining root `rb` into root `ra`, whose constants do not clash, with the
/// joined data at `ra`, keeps the summary.
pub proof fn lemma_summarizes_join(
    d0: Seq<EClassDataChirho>,
    p0: Seq<u32>,
    d: Seq<EClassDataChirho>,
    p: Seq<u32>,
    ra: u32,
    rb: u32,
)
    requires
        summarizes(d0, p0, d, p),
        flat(p),
        ra < p.len(),
        rb < p.len(),
        p[ra as int] == ra,
        p[rb as int] == rb,
        ra != rb,
        !conflict(d[ra as int], d[rb as int]),
    ensures
        summarizes(d0, p0, d.update(ra as int, merged(d[ra as int], d[rb as int])), relabel(p, ra, rb)),
{
    let p2 = relabel(p, ra, rb);
    let d2 = d.update(ra as int, merged(d[ra as int], d[rb as int]));
    let a = ra as int;
    let b = rb as int;
    assert forall|r: int| 0 <= r < p2.len() && p2[r] == r implies {
        &&& p0[r] == r
        &&& (#[trigger] d2[r]).is_ground_chirho == exists|q: int| in_class(p0, p2, q, r) && d0[q].is_ground_chirho
        &&& forall|c: i64| d2[r].constant_chirho == Some(c) <==> exists|q: int| in_class(p0, p2, q, r) && d0[q].constant_chirho == Some(c)
        &&& forall|j: int| bit64(d2[r].domain_chirho.0, j) <==> (0 <= j < 64 && forall|q: int| in_class(p0, p2, q, r) ==> bit64(d0[q].domain_chirho.0, j))
    } by {
        assert(p[r] == r);
        let dr = d[r];
        if r == a {
            let db = d[b];
            assert forall|q: int|
                #![trigger in_class(p0, p2, q, r)]
                #![trigger in_class(p0, p, q, a)]
                #![trigger in_class(p0, p, q, b)]
                in_class(p0, p2, q, r) == (in_class(p0, p, q, a) || in_class(p0, p, q, b)) by {}
            assert forall|c: i64| d2[r].constant_chirho == Some(c) <==> exists|q: int| in_class(p0, p2, q, r) && d0[q].constant_chirho == Some(c) by {
                if exists|q: int| in_class(p0, p2, q, r) && d0[q].constant_chirho == Some(c) {
                    let q = choose|q: int| in_class(p0, p2, q, r) && d0[q].constant_chirho == Some(c);
                    if in_class(p0, p, q, a) {
                        assert(d[a].constant_chirho == Some(c));
                    } else {
                        assert(d[b].constant_chirho == Some(c));
                    }
                }
                if d2[r].constant_chirho == Some(c) {
                    if d[a].constant_chirho == Some(c) {
                        let q = choose|q: int| in_class(p0, p, q, a) && d0[q].constant_chirho == Some(c);
                        assert(in_class(p0, p2, q, r));
                    } else {
                        assert(d[b].constant_chirho == Some(c));
                        let q = choose|q: int| in_class(p0, p, q, b) && d0[q].constant_chirho == Some(c);
                        assert(in_class(p0, p2, q, r));
                    }
                }
            }
            assert(d2[r].is_ground_chirho == exists|q: int| in_class(p0, p2, q, r) && d0[q].is_ground_chirho) by {
                if d[a].is_ground_chirho {
                    let q = choose|q: int| in_class(p0, p, q, a) && d0[q].is_ground_chirho;
                    assert(in_class(p0, p2, q, r));
                } else if d[b].is_ground_chirho {
                    let q = choose|q: int| in_class(p0, p, q, b) && d0[q].is_ground_chirho;
                    assert(in_class(p0, p2, q, r));
                }
                if exists|q: int| in_class(p0, p2, q, r) && d0[q].is_ground_chirho {
                    let q = choose|q: int| in_class(p0, p2, q, r) && d0[q].is_ground_chirho;
                    if in_class(p0, p, q, a) {
                        assert(d[a].is_ground_chirho);
                    } else {
                        assert(d[b].is_ground_chirho);
                    }
                }
            }
            assert forall|j: int| bit64(d2[r].domain_chirho.0, j) <==> (0 <= j < 64 && forall|q: int| in_class(p0, p2, q, r) ==> bit64(d0[q].domain_chirho.0, j)) by {
                lemma_and_bits(d[a].domain_chirho.0, d[b].domain_chirho.0, j);
                assert(d2[r].domain_chirho.0 == d[a].domain_chirho.0 & d[b].domain_chirho.0);
                let wa = bit64(d[a].domain_chirho.0, j);
                let wb = bit64(d[b].domain_chirho.0, j);
                assert(wa <==> (0 <= j < 64 && forall|q: int| in_class(p0, p, q, a) ==> bit64(d0[q].domain_chirho.0, j)));
                assert(wb <==> (0 <= j < 64 && forall|q: int| in_class(p0, p, q, b) ==> bit64(d0[q].domain_chirho.0, j)));
            }
        } else {
            assert(r != b);
            assert(d2[r] == d[r]);
            assert forall|q: int|
                #![trigger in_class(p0, p2, q, r)]
                #![trigger in_class(p0, p, q, r)]
                in_class(p0, p2, q, r) == in_class(p0, p, q, r) by {}
            assert forall|c: i64| d2[r].constant_chirho == Some(c) <==> exists|q: int| in_class(p0, p2, q, r) && d0[q].constant_chirho == Some(c) by {
                if exists|q: int| in_class(p0, p2, q, r) && d0[q].constant_chirho == Some(c) {
                    let q = choose|q: int| in_class(p0, p2, q, r) && d0[q].constant_chirho == Some(c);
                    assert(in_class(p0, p, q, r));
                }
                if d2[r].constant_chirho == Some(c) {
                    let q = choose|q: int| in_class(p0, p, q, r) && d0[q].constant_chirho == Some(c);
                    assert(in_class(p0, p2, q, r));
                }
            }
            assert(d2[r].is_ground_chirho == exists|q: int| in_class(p0, p2, q, r) && d0[q].is_ground_chirho) by {
                if exists|q: int| in_class(p0, p2, q, r) && d0[q].is_ground_chirho {
                    let q = choose|q: int| in_class(p0, p2, q, r) && d0[q].is_ground_chirho;
                    assert(in_class(p0, p, q, r));
                }
                if d2[r].is_ground_chirho {
                    let q = choose|q: int| in_class(p0, p, q, r) && d0[q].is_ground_chirho;
                    assert(in_class(p0, p2, q, r));
                }
            }
            assert forall|j: int| bit64(d2[r].domain_chirho.0, j) <==> (0 <= j < 64 && forall|q: int| in_class(p0, p2, q, r) ==> bit64(d0[q].domain_chirho.0, j)) by {
                assert(bit64(d[r].domain_chirho.0, j) <==> (0 <= j < 64 && forall|q: int| in_class(p0, p, q, r) ==> bit64(d0[q].domain_chirho.0, j)));
            }
        }
    }
}

/// Hardware-oriented e-graph.
pub struct EGraphNativeChirho {
    uf_chirho: UnionFindChirho,
    nodes_chirho: Vec<ENodeChirho>,
    node_to_class_chirho: Vec<u32>,
    class_data_chirho: Vec<EClassDataChirho>,
    pending_chirho: Vec<(u32, u32)>,
    symbols_chirho: Vec<Vec<u8>>,
    next_var_chirho: u32,
}

impl EGraphNativeChirho {
    /// Root of each class.
    pub closed spec fn rep(&self) -> Seq<u32> {
        self.uf_chirho.rep()
    }

    /// Root of class `c`.
    pub open spec fn find(&self, c: int) -> u32 {
        self.rep()[c]
    }

    /// Number of classes.
    pub open spec fn num_classes(&self) -> nat {
        self.rep().len()
    }

    /// The nodes, in the order they were added.
    pub closed spec fn nodes(&self) -> Seq<ENodeChirho> {
        self.nodes_chirho@
    }

    /// The class each node was added to.
    pub closed spec fn class_of(&self) -> Seq<u32> {
        self.node_to_class_chirho@
    }

    /// Analysis data per class (meaningful at roots).
    pub closed spec fn data(&self) -> Seq<EClassDataChirho> {
        self.class_data_chirho@
    }

    /// Merges not yet rebuilt.
    pub closed spec fn pending(&self) -> Seq<(u32, u32)> {
        self.pending_chirho@
    }

    /// Interned symbol names.
    pub closed spec fn symbols(&self) -> Seq<Seq<u8>> {
        self.symbols_chirho@.map_values(|v: Vec<u8>| v@)
    }

    /// Counter of fresh variables.
    pub closed spec fn next_var(&self) -> u32 {
        self.next_var_chirho
    }

    /// `a` and `b` are in the same class.
    pub open spec fn equiv(&self, a: int, b: int) -> bool {
        self.find(a) == self.find(b)
    }

    /// Nodes `x` and `y` are congruent, and their classes are joined unless
    /// their constants differ.
    pub open spec fn pair_ok(&self, x: int, y: int) -> bool {
        canon(self.nodes()[x], self.rep()) == canon(self.nodes()[y], self.rep()) ==> {
            ||| self.find(self.class_of()[x] as int) == self.find(self.class_of()[y] as int)
            ||| conflict(
                self.data()[self.find(self.class_of()[x] as int) as int],
                self.data()[self.find(self.class_of()[y] as int) as int],
            )
        }
    }

    /// Congruence closure: congruent nodes share a class, save where the
    /// constants of their classes clash.
    pub open spec fn closed(&self) -> bool {
        forall|x: int, y: int|
            0 <= x < self.nodes().len() && 0 <= y < self.nodes().len() ==> #[trigger] self.pair_ok(x, y)
    }

    /// Internal consistency of the e-graph.
    pub open spec fn wf(&self) -> bool {
        &&& flat(self.rep())
        &&& self.data().len() == self.rep().len()
        &&& self.class_of().len() == self.nodes().len()
        &&& self.symbols().len() <= u32::MAX
        &&& forall|k: int| 0 <= k < self.nodes().len() ==> {
            &&& (#[trigger] self.class_of()[k]) < self.rep().len()
            &&& children_ok(self.nodes()[k], self.rep().len() as int)
            &&& symbol_ok(self.nodes()[k], self.symbols().len() as int)
        }
    }

    /// `post` extends `pre`: classes, nodes, data and symbols only appended,
    /// existing roots unchanged.
    pub open spec fn grows(pre: Self, post: Self) -> bool {
        &&& pre.rep().len() <= post.rep().len()
        &&& forall|i: int| 0 <= i < pre.rep().len() ==> #[trigger] post.rep()[i] == pre.rep()[i]
        &&& pre.nodes().is_prefix_of(post.nodes())
        &&& pre.class_of().is_prefix_of(post.class_of())
        &&& pre.data().is_prefix_of(post.data())
        &&& pre.symbols().is_prefix_of(post.symbols())
        &&& post.pending() == pre.pending()
        &&& post.next_var() == pre.next_var()
    }

    /// `post` extends `pre` as `grows` does, save that the counter of fresh
    /// variables may have moved.
    pub open spec fn extends(pre: Self, post: Self) -> bool {
        &&& pre.rep().len() <= post.rep().len()
        &&& forall|i: int| 0 <= i < pre.rep().len() ==> #[trigger] post.rep()[i] == pre.rep()[i]
        &&& pre.nodes().is_prefix_of(post.nodes())
        &&& pre.class_of().is_prefix_of(post.class_of())
        &&& pre.data().is_prefix_of(post.data())
        &&& pre.symbols().is_prefix_of(post.symbols())
        &&& post.pending() == pre.pending()
    }

    /// Analysis of a new class holding node `n`.
    pub open spec fn analysis(&self, n: ENodeChirho) -> EClassDataChirho {
        EClassDataChirho {
            is_ground_chirho: match n {
                ENodeChirho::SymChirho(s) => !is_var_name(self.symbols()[s as int]),
                ENodeChirho::ConsChirho(h, t) => self.data()[self.find(h as int) as int].is_ground_chirho
                    && self.data()[self.find(t as int) as int].is_ground_chirho,
                ENodeChirho::AppChirho(f, a) => self.data()[self.find(f as int) as int].is_ground_chirho
                    && self.data()[self.find(a as int) as int].is_ground_chirho,
                _ => true,
            },
            constant_chirho: match n {
                ENodeChirho::IntChirho(v) => Some(v),
                _ => None,
            },
            domain_chirho: BitVec64Chirho(0),
        }
    }

    /// Some node has canonical form `c`.
    pub open spec fn has_node(&self, c: ENodeChirho) -> bool {
        exists|k: int| 0 <= k < self.nodes().len() && canon(self.nodes()[k], self.rep()) == c
    }

    /// `k` is the first node with canonical form `c`.
    pub open spec fn first_node(&self, c: ENodeChirho, k: int) -> bool {
        &&& 0 <= k < self.nodes().len()
        &&& canon(self.nodes()[k], self.rep()) == c
        &&& forall|j: int| 0 <= j < k ==> canon(#[trigger] self.nodes()[j], self.rep()) != c
    }

    /// Adding node `n` to `pre` gave `post` and class `r`: the root of the
    /// first node of the same canonical form, or else a post class holding
    /// the canonical node.
    pub open spec fn added(pre: Self, n: ENodeChirho, post: Self, r: u32) -> bool {
        let c = canon(n, pre.rep());
        if pre.has_node(c) {
            &&& post == pre
            &&& exists|k: int| #[trigger] pre.first_node(c, k) && r == pre.find(pre.class_of()[k] as int)
        } else {
            &&& r == pre.rep().len()
            &&& post.rep() == pre.rep().push(r)
            &&& post.nodes() == pre.nodes().push(c)
            &&& post.class_of() == pre.class_of().push(r)
            &&& post.data() == pre.data().push(pre.analysis(n))
            &&& post.symbols() == pre.symbols()
            &&& post.pending() == pre.pending()
            &&& post.next_var() == pre.next_var()
        }
    }

    /// Class `r` holds a node whose canonical form is that of `n`.
    pub open spec fn holds(&self, r: u32, n: ENodeChirho) -> bool {
        exists|k: int|
            0 <= k < self.nodes().len() && canon(#[trigger] self.nodes()[k], self.rep()) == canon(n, self.rep())
                && self.find(self.class_of()[k] as int) == r
    }

    /// Class `r` holds the list of the classes `s`: a cons of the first
    /// onto a class holding the rest, down to nil.
    pub open spec fn is_list(&self, r: u32, s: Seq<u32>) -> bool
        decreases s.len(),
    {
        if s.len() == 0 {
            self.holds(r, ENodeChirho::NilChirho)
        } else {
            exists|t: u32| #![trigger self.holds(r, ENodeChirho::ConsChirho(s[0], t))]
                t < self.num_classes() && self.holds(r, ENodeChirho::ConsChirho(s[0], t)) && self.is_list(t, s.skip(1))
        }
    }

    /// `k` is the first interned symbol named `b`.
    pub open spec fn first_symbol(&self, b: Seq<u8>, k: int) -> bool {
        &&& 0 <= k < self.symbols().len()
        &&& self.symbols()[k] == b
        &&& forall|j: int| 0 <= j < k ==> #[trigger] self.symbols()[j] != b
    }

    /// An empty e-graph.
    pub fn new_chirho() -> (r: Self)
        ensures
            r.wf(),
            r.num_classes() == 0,
            r.nodes().len() == 0,
            r.symbols().len() == 0,
            r.pending().len() == 0,
            r.next_var() == 0,
    {
        let r = Self {
            uf_chirho: UnionFindChirho::new(),
            nodes_chirho: Vec::new(),
            node_to_class_chirho: Vec::new(),
            class_data_chirho: Vec::new(),
            pending_chirho: Vec::new(),
            symbols_chirho: Vec::new(),
            next_var_chirho: 0,
        };
        assert(r.symbols() =~= Seq::<Seq<u8>>::empty());
        r
    }

    /// Root of class `c`.
    pub fn find_chirho(&mut self, class_chirho: u32) -> (r: u32)
        requires
            old(self).wf(),
            class_chirho < old(self).num_classes(),
        ensures
            *final(self) == *old(self),
            r == old(self).find(class_chirho as int),
    {
        self.uf_chirho.find_chirho(class_chirho)
    }

    /// Root of class `c`, reading only.
    pub fn find_immut_chirho(&self, class_chirho: u32) -> (r: u32)
        requires
            self.wf(),
            class_chirho < self.num_classes(),
        ensures
            r == self.find(class_chirho as int),
    {
        self.uf_chirho.find_immut_chirho(class_chirho)
    }

    /// Add a node, returning its class; an equal canonical node already
    /// present gives back the root of its class.
    pub fn add_chirho(&mut self, node_chirho: ENodeChirho) -> (r: u32)
        requires
            old(self).wf(),
            children_ok(node_chirho, old(self).num_classes() as int),
            symbol_ok(node_chirho, old(self).symbols().len() as int),
            old(self).num_classes() < u32::MAX,
        ensures
            final(self).wf(),
            Self::added(*old(self), node_chirho, *final(self), r),
            Self::grows(*old(self), *final(self)),
            r < final(self).num_classes(),
            final(self).find(r as int) == r,
            final(self).holds(r, node_chirho),
    {
        let canonical = node_chirho.canonicalize_chirho(&self.uf_chirho);
        let n = self.nodes_chirho.len();
        let mut k: usize = 0;
        while k < n
            invariant
                self.wf(),
                n == self.nodes().len(),
                canonical == canon(node_chirho, self.rep()),
                k <= n,
                forall|j: int| 0 <= j < k ==> canon(#[trigger] self.nodes()[j], self.rep()) != canonical,
            decreases n - k,
        {
            proof {
                assert(self.class_of()[k as int] < self.rep().len());
            }
            let existing = self.nodes_chirho[k].canonicalize_chirho(&self.uf_chirho);
            if existing == canonical {
                let c = self.node_to_class_chirho[k];
                let r = self.uf_chirho.find_immut_chirho(c);
                proof {
                    assert(self.class_of()[k as int] < self.rep().len());
                    assert(self.first_node(canonical, k as int));
                    assert(self.holds(r, node_chirho));
                    assert(self.has_node(canonical));
                    assert(self.nodes().is_prefix_of(self.nodes()));
                    assert(self.class_of().is_prefix_of(self.class_of()));
                    assert(self.data().is_prefix_of(self.data()));
                    assert(self.symbols().is_prefix_of(self.symbols()));
                }
                return r;
            }
            k = k + 1;
        }
        let ghost old_self = *self;
        proof {
            assert(!self.has_node(canonical));
        }
        let data = self.analyze_chirho(node_chirho);
        let class_chirho = self.class_data_chirho.len() as u32;
        self.uf_chirho.make_set_chirho(class_chirho);
        self.class_data_chirho.push(data);
        self.nodes_chirho.push(canonical);
        self.node_to_class_chirho.push(class_chirho);
        proof {
            assert(self.rep() == old_self.rep().push(class_chirho));
            assert forall|k: int| 0 <= k < self.nodes().len() implies {
                &&& (#[trigger] self.class_of()[k]) < self.rep().len()
                &&& children_ok(self.nodes()[k], self.rep().len() as int)
                &&& symbol_ok(self.nodes()[k], self.symbols().len() as int)
            } by {
                if k < n {
                    assert(self.nodes()[k] == old_self.nodes()[k]);
                    assert(self.class_of()[k] == old_self.class_of()[k]);
                }
            }
            assert(old_self.nodes().is_prefix_of(self.nodes()));
            assert(old_self.class_of().is_prefix_of(self.class_of()));
            assert(old_self.data().is_prefix_of(self.data()));
            assert(old_self.symbols().is_prefix_of(self.symbols()));
            assert(self.nodes()[n as int] == canonical);
            assert(canon(canonical, self.rep()) == canon(node_chirho, self.rep()));
            assert(self.holds(class_chirho, node_chirho));
        }
        class_chirho
    }

    /// Join the classes of `a` and `b` unless they already share a root or
    /// hold different constants; the root of `a` stays the root and takes
    /// the joined data. Returns whether the classes were joined.
    fn merge_classes_chirho(&mut self, a_chirho: u32, b_chirho: u32) -> (r: bool)
        requires
            old(self).wf(),
            a_chirho < old(self).num_classes(),
            b_chirho < old(self).num_classes(),
        ensures
            final(self).wf(),
            r == (old(self).find(a_chirho as int) != old(self).find(b_chirho as int) && !conflict(
                old(self).data()[old(self).find(a_chirho as int) as int],
                old(self).data()[old(self).find(b_chirho as int) as int],
            )),
            !r ==> *final(self) == *old(self),
            r ==> Self::joined(*old(self), *final(self), old(self).find(a_chirho as int), old(self).find(b_chirho as int)),
    {
        let ra = self.uf_chirho.find_immut_chirho(a_chirho);
        let rb = self.uf_chirho.find_immut_chirho(b_chirho);
        if ra == rb {
            return false;
        }
        let da = self.class_data_chirho[ra as usize];
        let db = self.class_data_chirho[rb as usize];
        match (da.constant_chirho, db.constant_chirho) {
            (Some(x), Some(y)) => {
                if x != y {
                    return false;
                }
            },
            _ => {},
        }
        let ghost old_self = *self;
        proof {
            lemma_relabel_roots(self.rep(), ra, rb);
        }
        self.uf_chirho.union_chirho(ra, rb);
        let m = EClassDataChirho {
            is_ground_chirho: da.is_ground_chirho || db.is_ground_chirho,
            constant_chirho: if da.constant_chirho.is_some() { da.constant_chirho } else { db.constant_chirho },
            domain_chirho: da.domain_chirho.and_chirho(db.domain_chirho),
        };
        self.class_data_chirho.set(ra as usize, m);
        proof {
            assert(self.data() == old_self.data().update(ra as int, merged(da, db)));
            assert forall|k: int| 0 <= k < self.nodes().len() implies {
                &&& (#[trigger] self.class_of()[k]) < self.rep().len()
                &&& children_ok(self.nodes()[k], self.rep().len() as int)
                &&& symbol_ok(self.nodes()[k], self.symbols().len() as int)
            } by {
                assert(old_self.class_of()[k] < old_self.rep().len());
            }
        }
        true
    }

    /// `post` is `pre` with the class of root `rb` joined into root `ra`.
    pub open spec fn joined(pre: Self, post: Self, ra: u32, rb: u32) -> bool {
        &&& post.rep() == relabel(pre.rep(), ra, rb)
        &&& post.data() == pre.data().update(ra as int, merged(pre.data()[ra as int], pre.data()[rb as int]))
        &&& roots(post.rep()).len() + 1 == roots(pre.rep()).len()
        &&& post.nodes() == pre.nodes()
        &&& post.class_of() == pre.class_of()
        &&& post.symbols() == pre.symbols()
        &&& post.pending() == pre.pending()
        &&& post.next_var() == pre.next_var()
    }

    /// Join the classes of `a` and `b` and queue the pair for rebuilding.
    /// Returns false, changing nothing, when their constants differ; true when
    /// they were already one class (nothing changes then either).
    pub fn union_chirho(&mut self, a_chirho: u32, b_chirho: u32) -> (r: bool)
        requires
            old(self).wf(),
            a_chirho < old(self).num_classes(),
            b_chirho < old(self).num_classes(),
        ensures
            final(self).wf(),
            r == !(old(self).find(a_chirho as int) != old(self).find(b_chirho as int) && conflict(
                old(self).data()[old(self).find(a_chirho as int) as int],
                old(self).data()[old(self).find(b_chirho as int) as int],
            )),
            old(self).find(a_chirho as int) == old(self).find(b_chirho as int) || !r ==> *final(self) == *old(self),
            old(self).find(a_chirho as int) != old(self).find(b_chirho as int) && r ==> {
                let ra = old(self).find(a_chirho as int);
                let rb = old(self).find(b_chirho as int);
                &&& final(self).rep() == relabel(old(self).rep(), ra, rb)
                &&& final(self).data() == old(self).data().update(ra as int, merged(old(self).data()[ra as int], old(self).data()[rb as int]))
                &&& final(self).nodes() == old(self).nodes()
                &&& final(self).class_of() == old(self).class_of()
                &&& final(self).symbols() == old(self).symbols()
                &&& final(self).pending() == old(self).pending().push((ra, rb))
                &&& final(self).next_var() == old(self).next_var()
            },
            r ==> final(self).equiv(a_chirho as int, b_chirho as int),
    {
        let ra = self.uf_chirho.find_immut_chirho(a_chirho);
        let rb = self.uf_chirho.find_immut_chirho(b_chirho);
        if ra == rb {
            return true;
        }
        if !self.merge_classes_chirho(a_chirho, b_chirho) {
            return false;
        }
        self.pending_chirho.push((ra, rb));
        true
    }

    /// One sweep over all pairs of nodes, joining the classes of congruent
    /// nodes. Returns whether any classes were joined; if none were, the
    /// e-graph is closed and unchanged.
    fn merge_pass_chirho(
        &mut self,
        Ghost(d0): Ghost<Seq<EClassDataChirho>>,
        Ghost(p0): Ghost<Seq<u32>>,
    ) -> (merged_chirho: bool)
        requires
            old(self).wf(),
            summarizes(d0, p0, old(self).data(), old(self).rep()),
        ensures
            summarizes(d0, p0, final(self).data(), final(self).rep()),
            final(self).wf(),
            final(self).nodes() == old(self).nodes(),
            final(self).class_of() == old(self).class_of(),
            final(self).symbols() == old(self).symbols(),
            final(self).pending() == old(self).pending(),
            final(self).next_var() == old(self).next_var(),
            coarser(old(self).rep(), final(self).rep()),
            roots(final(self).rep()).len() <= roots(old(self).rep()).len(),
            merged_chirho ==> roots(final(self).rep()).len() < roots(old(self).rep()).len(),
            !merged_chirho ==> *final(self) == *old(self) && final(self).closed(),
    {
        let ghost start = *self;
        let m = self.nodes_chirho.len();
        let mut merged_chirho = false;
        let mut x: usize = 0;
        proof {
            lemma_coarser_refl(self.rep());
        }
        while x < m
            invariant
                self.wf(),
                m == self.nodes().len(),
                x <= m,
                self.nodes() == start.nodes(),
                self.class_of() == start.class_of(),
                self.symbols() == start.symbols(),
                self.pending() == start.pending(),
                self.next_var() == start.next_var(),
                coarser(start.rep(), self.rep()),
                summarizes(d0, p0, self.data(), self.rep()),
                roots(self.rep()).len() <= roots(start.rep()).len(),
                merged_chirho ==> roots(self.rep()).len() < roots(start.rep()).len(),
                !merged_chirho ==> *self == start,
                !merged_chirho ==> forall|i: int, j: int| 0 <= i < x && 0 <= j < m ==> #[trigger] self.pair_ok(i, j),
            decreases m - x,
        {
            proof {
                assert(self.class_of()[x as int] < self.rep().len());
            }
            let cx = self.node_to_class_chirho[x];
            let nx = self.nodes_chirho[x].canonicalize_chirho(&self.uf_chirho);
            let mut y: usize = 0;
            while y < m
                invariant
                    self.wf(),
                    m == self.nodes().len(),
                    x < m,
                    y <= m,
                    cx == self.class_of()[x as int],
                    self.nodes() == start.nodes(),
                    self.class_of() == start.class_of(),
                    self.symbols() == start.symbols(),
                    self.pending() == start.pending(),
                    self.next_var() == start.next_var(),
                    coarser(start.rep(), self.rep()),
                    summarizes(d0, p0, self.data(), self.rep()),
                    roots(self.rep()).len() <= roots(start.rep()).len(),
                    merged_chirho ==> roots(self.rep()).len() < roots(start.rep()).len(),
                    !merged_chirho ==> *self == start,
                    !merged_chirho ==> nx == canon(self.nodes()[x as int], self.rep()),
                    !merged_chirho ==> forall|i: int, j: int| 0 <= i < x && 0 <= j < m ==> #[trigger] self.pair_ok(i, j),
                    !merged_chirho ==> forall|j: int| 0 <= j < y ==> #[trigger] self.pair_ok(x as int, j),
                decreases m - y,
            {
                proof {
                    assert(self.class_of()[y as int] < self.rep().len());
                }
                let cy = self.node_to_class_chirho[y];
                let ny = self.nodes_chirho[y].canonicalize_chirho(&self.uf_chirho);
                if nx == ny {
                    let rx = self.uf_chirho.find_immut_chirho(cx);
                    let ry = self.uf_chirho.find_immut_chirho(cy);
                    if rx != ry {
                        let ghost before = *self;
                        if self.merge_classes_chirho(cx, cy) {
                            proof {
                                lemma_summarizes_join(d0, p0, before.data(), before.rep(), rx, ry);
                                lemma_relabel_coarser(before.rep(), rx, ry);
                                lemma_coarser_trans(start.rep(), before.rep(), self.rep());
                            }
                            merged_chirho = true;
                        }
                    }
                }
                y = y + 1;
            }
            x = x + 1;
        }
        proof {
            if !merged_chirho {
                assert forall|i: int, j: int|
                    0 <= i < self.nodes().len() && 0 <= j < self.nodes().len() implies #[trigger] self.pair_ok(i, j) by {}
            }
        }
        merged_chirho
    }

    /// Congruence closure: join the classes of congruent nodes until none
    /// are left apart (pairs whose constants clash stay apart), and clear
    /// the queue of merges. Each class that results holds the combined data
    /// of the classes it took in.
    pub fn rebuild_chirho(&mut self)
        requires
            old(self).wf(),
        ensures
            summarizes(old(self).data(), old(self).rep(), final(self).data(), final(self).rep()),
            final(self).wf(),
            final(self).closed(),
            final(self).pending().len() == 0,
            final(self).nodes() == old(self).nodes(),
            final(self).class_of() == old(self).class_of(),
            final(self).symbols() == old(self).symbols(),
            final(self).next_var() == old(self).next_var(),
            coarser(old(self).rep(), final(self).rep()),
    {
        proof {
            lemma_summarizes_refl(self.data(), self.rep());
        }
        self.rebuild_from_chirho(Ghost(self.data()), Ghost(self.rep()));
    }

    /// Rebuild, keeping the summary of the data against the roots `p0` and
    /// data `d0` of an earlier state.
    fn rebuild_from_chirho(&mut self, Ghost(d0): Ghost<Seq<EClassDataChirho>>, Ghost(p0): Ghost<Seq<u32>>)
        requires
            old(self).wf(),
            summarizes(d0, p0, old(self).data(), old(self).rep()),
        ensures
            summarizes(d0, p0, final(self).data(), final(self).rep()),
            final(self).wf(),
            final(self).closed(),
            final(self).pending().len() == 0,
            final(self).nodes() == old(self).nodes(),
            final(self).class_of() == old(self).class_of(),
            final(self).symbols() == old(self).symbols(),
            final(self).next_var() == old(self).next_var(),
            coarser(old(self).rep(), final(self).rep()),
    {
        let ghost start = *self;
        self.pending_chirho.clear();
        proof {
            lemma_coarser_refl(self.rep());
            lemma_roots_finite(self.rep());
        }
        let mut go = true;
        while go
            invariant
                self.wf(),
                self.pending().len() == 0,
                self.nodes() == start.nodes(),
                self.class_of() == start.class_of(),
                self.symbols() == start.symbols(),
                self.next_var() == start.next_var(),
                coarser(start.rep(), self.rep()),
                summarizes(d0, p0, self.data(), self.rep()),
                !go ==> self.closed(),
            decreases roots(self.rep()).len() + if go { 1int } else { 0int },
        {
            let ghost before = *self;
            go = self.merge_pass_chirho(Ghost(d0), Ghost(p0));
            proof {
                lemma_coarser_trans(start.rep(), before.rep(), self.rep());
            }
        }
    }

    /// Join the classes of `a` and `b` and restore congruence closure.
    /// Returns false, changing nothing, when their constants differ.
    pub fn unify_chirho(&mut self, a_chirho: u32, b_chirho: u32) -> (r: bool)
        requires
            old(self).wf(),
            a_chirho < old(self).num_classes(),
            b_chirho < old(self).num_classes(),
        ensures
            final(self).wf(),
            r == !(old(self).find(a_chirho as int) != old(self).find(b_chirho as int) && conflict(
                old(self).data()[old(self).find(a_chirho as int) as int],
                old(self).data()[old(self).find(b_chirho as int) as int],
            )),
            !r ==> *final(self) == *old(self),
            r ==> final(self).equiv(a_chirho as int, b_chirho as int),
            r ==> final(self).closed(),
            r ==> final(self).pending().len() == 0,
            r ==> coarser(old(self).rep(), final(self).rep()),
            r ==> summarizes(old(self).data(), old(self).rep(), final(self).data(), final(self).rep()),
            final(self).nodes() == old(self).nodes(),
            final(self).class_of() == old(self).class_of(),
            final(self).symbols() == old(self).symbols(),
            final(self).next_var() == old(self).next_var(),
    {
        let ghost start = *self;
        if !self.union_chirho(a_chirho, b_chirho) {
            return false;
        }
        let ghost mid = *self;
        proof {
            lemma_coarser_refl(start.rep());
            lemma_summarizes_refl(start.data(), start.rep());
            if start.find(a_chirho as int) != start.find(b_chirho as int) {
                lemma_relabel_coarser(start.rep(), start.find(a_chirho as int), start.find(b_chirho as int));
                lemma_summarizes_join(
                    start.data(),
                    start.rep(),
                    start.data(),
                    start.rep(),
                    start.find(a_chirho as int),
                    start.find(b_chirho as int),
                );
            }
        }
        self.rebuild_from_chirho(Ghost(start.data()), Ghost(start.rep()));
        proof {
            lemma_coarser_trans(start.rep(), mid.rep(), self.rep());
            assert(mid.rep()[a_chirho as int] == mid.rep()[b_chirho as int]);
        }
        true
    }

    /// Are `a` and `b` in the same class?
    pub fn equiv_chirho(&self, a_chirho: u32, b_chirho: u32) -> (r: bool)
        requires
            self.wf(),
            a_chirho < self.num_classes(),
            b_chirho < self.num_classes(),
        ensures
            r == self.equiv(a_chirho as int, b_chirho as int),
    {
        self.uf_chirho.find_immut_chirho(a_chirho) == self.uf_chirho.find_immut_chirho(b_chirho)
    }

    /// Is the class of `c` free of logic variables?
    pub fn is_ground_chirho(&self, class_chirho: u32) -> (r: bool)
        requires
            self.wf(),
            class_chirho < self.num_classes(),
        ensures
            r == self.data()[self.find(class_chirho as int) as int].is_ground_chirho,
    {
        let root = self.uf_chirho.find_immut_chirho(class_chirho);
        self.class_data_chirho[root as usize].is_ground_chirho
    }

    /// Number of classes.
    pub fn num_classes_chirho(&self) -> (r: usize)
        requires
            self.wf(),
        ensures
            r == self.num_classes(),
    {
        self.class_data_chirho.len()
    }

    /// Number of nodes.
    pub fn num_nodes_chirho(&self) -> (r: usize)
        ensures
            r == self.nodes().len(),
    {
        self.nodes_chirho.len()
    }

    /// The index of the symbol named `bytes`, interning it if new.
    fn intern_bytes_chirho(&mut self, bytes_chirho: Vec<u8>) -> (r: u32)
        requires
            old(self).wf(),
            old(self).symbols().len() < u32::MAX,
        ensures
            final(self).wf(),
            (exists|k: int| 0 <= k < old(self).symbols().len() && #[trigger] old(self).symbols()[k] == bytes_chirho@) ==> {
                &&& *final(self) == *old(self)
                &&& old(self).first_symbol(bytes_chirho@, r as int)
            },
            !(exists|k: int| 0 <= k < old(self).symbols().len() && #[trigger] old(self).symbols()[k] == bytes_chirho@) ==> {
                &&& r == old(self).symbols().len()
                &&& final(self).symbols() == old(self).symbols().push(bytes_chirho@)
                &&& final(self).rep() == old(self).rep()
                &&& final(self).nodes() == old(self).nodes()
                &&& final(self).class_of() == old(self).class_of()
                &&& final(self).data() == old(self).data()
                &&& final(self).pending() == old(self).pending()
                &&& final(self).next_var() == old(self).next_var()
            },
            r < final(self).symbols().len(),
            final(self).symbols()[r as int] == bytes_chirho@,
    {
        let n = self.symbols_chirho.len();
        let mut k: usize = 0;
        while k < n
            invariant
                self.wf(),
                n == self.symbols().len(),
                k <= n,
                forall|j: int| 0 <= j < k ==> #[trigger] self.symbols()[j] != bytes_chirho@,
            decreases n - k,
        {
            if bytes_eq_chirho(&self.symbols_chirho[k], &bytes_chirho) {
                proof {
                    assert(self.symbols()[k as int] == self.symbols_chirho@[k as int]@);
                    assert(self.first_symbol(bytes_chirho@, k as int));
                }
                return k as u32;
            }
            proof {
                assert(self.symbols()[k as int] == self.symbols_chirho@[k as int]@);
            }
            k = k + 1;
        }
        let ghost old_self = *self;
        self.symbols_chirho.push(bytes_chirho);
        proof {
            assert(self.symbols() =~= old_self.symbols().push(bytes_chirho@));
            assert forall|k: int| 0 <= k < self.nodes().len() implies {
                &&& (#[trigger] self.class_of()[k]) < self.rep().len()
                &&& children_ok(self.nodes()[k], self.rep().len() as int)
                &&& symbol_ok(self.nodes()[k], self.symbols().len() as int)
            } by {
                assert(old_self.class_of()[k] < old_self.rep().len());
            }
        }
        n as u32
    }

    /// The index of the symbol `name`, interning it if new.
    pub fn intern_symbol_chirho(&mut self, name_chirho: &str) -> (r: u32)
        requires
            old(self).wf(),
            old(self).symbols().len() < u32::MAX,
        ensures
            final(self).wf(),
            (exists|k: int| 0 <= k < old(self).symbols().len() && #[trigger] old(self).symbols()[k] == name_chirho.spec_bytes()) ==> {
                &&& *final(self) == *old(self)
                &&& old(self).first_symbol(name_chirho.spec_bytes(), r as int)
            },
            !(exists|k: int| 0 <= k < old(self).symbols().len() && #[trigger] old(self).symbols()[k] == name_chirho.spec_bytes()) ==> {
                &&& r == old(self).symbols().len()
                &&& final(self).symbols() == old(self).symbols().push(name_chirho.spec_bytes())
                &&& final(self).rep() == old(self).rep()
                &&& final(self).nodes() == old(self).nodes()
                &&& final(self).class_of() == old(self).class_of()
                &&& final(self).data() == old(self).data()
                &&& final(self).pending() == old(self).pending()
                &&& final(self).next_var() == old(self).next_var()
            },
            r < final(self).symbols().len(),
            final(self).symbols()[r as int] == name_chirho.spec_bytes(),
    {
        let b = name_chirho.as_bytes();
        let mut v: Vec<u8> = Vec::new();
        let mut i: usize = 0;
        while i < b.len()
            invariant
                i <= b@.len(),
                v@ == b@.subrange(0, i as int),
            decreases b@.len() - i,
        {
            v.push(b[i]);
            i = i + 1;
            proof {
                assert(v@ =~= b@.subrange(0, i as int));
            }
        }
        proof {
            assert(v@ =~= name_chirho.spec_bytes());
        }
        self.intern_bytes_chirho(v)
    }

    /// A new logic variable: a symbol node named `_v` and the counter.
    pub fn fresh_var_chirho(&mut self) -> (r: u32)
        requires
            old(self).wf(),
            old(self).next_var() < u32::MAX,
            old(self).symbols().len() < u32::MAX,
            old(self).num_classes() < u32::MAX,
        ensures
            final(self).wf(),
            final(self).next_var() == old(self).next_var() + 1,
            r < final(self).num_classes(),
            final(self).find(r as int) == r,
            exists|s: u32| #![trigger final(self).symbols()[s as int]]
                s < final(self).symbols().len() && final(self).symbols()[s as int] == var_name(old(self).next_var() as nat)
                && final(self).holds(r, ENodeChirho::SymChirho(s)),
            Self::extends(*old(self), *final(self)),
            !old(self).symbols().contains(var_name(old(self).next_var() as nat)) ==> {
                &&& r == old(self).num_classes()
                &&& final(self).num_classes() == old(self).num_classes() + 1
                &&& final(self).nodes().len() == old(self).nodes().len() + 1
                &&& final(self).nodes()[old(self).nodes().len() as int] is SymChirho
                &&& final(self).symbols() == old(self).symbols().push(var_name(old(self).next_var() as nat))
                &&& final(self).data()[r as int] == (EClassDataChirho {
                    is_ground_chirho: false,
                    constant_chirho: None,
                    domain_chirho: BitVec64Chirho(0),
                })
            },
    {
        let ghost start = *self;
        let mut name: Vec<u8> = Vec::new();
        name.push(95u8);
        name.push(118u8);
        let digits = dec_bytes_chirho(self.next_var_chirho);
        let mut i: usize = 0;
        while i < digits.len()
            invariant
                i <= digits@.len(),
                digits@ == dec_digits(self.next_var_chirho as nat),
                name@ == seq![95u8, 118u8] + digits@.subrange(0, i as int),
            decreases digits@.len() - i,
        {
            name.push(digits[i]);
            i = i + 1;
            proof {
                assert(name@ =~= seq![95u8, 118u8] + digits@.subrange(0, i as int));
            }
        }
        proof {
            assert(name@ =~= var_name(self.next_var_chirho as nat));
        }
        let ghost nv = self.next_var_chirho;
        let s = self.intern_bytes_chirho(name);
        self.next_var_chirho = self.next_var_chirho + 1;
        proof {
            assert forall|k: int| 0 <= k < self.nodes().len() implies {
                &&& (#[trigger] self.class_of()[k]) < self.rep().len()
                &&& children_ok(self.nodes()[k], self.rep().len() as int)
                &&& symbol_ok(self.nodes()[k], self.symbols().len() as int)
            } by {}
        }
        let ghost mid = *self;
        proof {
            if !start.symbols().contains(var_name(nv as nat)) {
                assert(!(exists|k: int| 0 <= k < start.symbols().len() && #[trigger] start.symbols()[k] == var_name(nv as nat))) by {
                    if exists|k: int| 0 <= k < start.symbols().len() && #[trigger] start.symbols()[k] == var_name(nv as nat) {
                        let k = choose|k: int| 0 <= k < start.symbols().len() && #[trigger] start.symbols()[k] == var_name(nv as nat);
                        assert(start.symbols().contains(var_name(nv as nat)));
                    }
                }
                assert(s == start.symbols().len());
                assert(!mid.has_node(ENodeChirho::SymChirho(s))) by {
                    if mid.has_node(ENodeChirho::SymChirho(s)) {
                        let k = choose|k: int| 0 <= k < mid.nodes().len() && canon(mid.nodes()[k], mid.rep()) == ENodeChirho::SymChirho(s);
                        assert(mid.class_of()[k] < mid.rep().len());
                    }
                }
                assert(is_var_name(var_name(nv as nat)));
            }
        }
        let r = self.add_chirho(ENodeChirho::SymChirho(s));
        proof {
            assert(self.symbols()[s as int] == var_name(nv as nat));
            assert(start.data().is_prefix_of(mid.data()));
            assert(start.nodes().is_prefix_of(mid.nodes()));
            assert(start.class_of().is_prefix_of(mid.class_of()));
            assert(start.symbols().is_prefix_of(mid.symbols()));
            lemma_prefix_trans(start.data(), mid.data(), self.data());
            lemma_prefix_trans(start.nodes(), mid.nodes(), self.nodes());
            lemma_prefix_trans(start.class_of(), mid.class_of(), self.class_of());
            lemma_prefix_trans(start.symbols(), mid.symbols(), self.symbols());
        }
        r
    }

    /// The class of the integer `n`.
    pub fn int_chirho(&mut self, n_chirho: i64) -> (r: u32)
        requires
            old(self).wf(),
            old(self).num_classes() < u32::MAX,
        ensures
            final(self).wf(),
            Self::added(*old(self), ENodeChirho::IntChirho(n_chirho), *final(self), r),
            Self::grows(*old(self), *final(self)),
            r < final(self).num_classes(),
            final(self).find(r as int) == r,
            final(self).holds(r, ENodeChirho::IntChirho(n_chirho)),
    {
        self.add_chirho(ENodeChirho::IntChirho(n_chirho))
    }

    /// The class of nil.
    pub fn nil_chirho(&mut self) -> (r: u32)
        requires
            old(self).wf(),
            old(self).num_classes() < u32::MAX,
        ensures
            final(self).wf(),
            Self::added(*old(self), ENodeChirho::NilChirho, *final(self), r),
            Self::grows(*old(self), *final(self)),
            r < final(self).num_classes(),
            final(self).find(r as int) == r,
            final(self).holds(r, ENodeChirho::NilChirho),
    {
        self.add_chirho(ENodeChirho::NilChirho)
    }

    /// The class of the symbol `name` (interned first).
    pub fn sym_chirho(&mut self, name_chirho: &str) -> (r: u32)
        requires
            old(self).wf(),
            old(self).symbols().len() < u32::MAX,
            old(self).num_classes() < u32::MAX,
        ensures
            final(self).wf(),
            r < final(self).num_classes(),
            final(self).find(r as int) == r,
            final(self).next_var() == old(self).next_var(),
            exists|s: u32| #![trigger final(self).symbols()[s as int]]
                s < final(self).symbols().len() && final(self).symbols()[s as int] == name_chirho.spec_bytes()
                && final(self).holds(r, ENodeChirho::SymChirho(s)),
    {
        let s = self.intern_symbol_chirho(name_chirho);
        let r = self.add_chirho(ENodeChirho::SymChirho(s));
        proof {
            assert(self.symbols()[s as int] == name_chirho.spec_bytes());
        }
        r
    }

    /// The class of the cons cell `(head . tail)`.
    pub fn cons_chirho(&mut self, head_chirho: u32, tail_chirho: u32) -> (r: u32)
        requires
            old(self).wf(),
            head_chirho < old(self).num_classes(),
            tail_chirho < old(self).num_classes(),
            old(self).num_classes() < u32::MAX,
        ensures
            final(self).wf(),
            Self::added(*old(self), ENodeChirho::ConsChirho(head_chirho, tail_chirho), *final(self), r),
            Self::grows(*old(self), *final(self)),
            r < final(self).num_classes(),
            final(self).find(r as int) == r,
            final(self).holds(r, ENodeChirho::ConsChirho(head_chirho, tail_chirho)),
    {
        self.add_chirho(ENodeChirho::ConsChirho(head_chirho, tail_chirho))
    }

    /// The class of the list of `elems`: cons cells ending in nil.
    pub fn list_chirho(&mut self, elems_chirho: &[u32]) -> (r: u32)
        requires
            old(self).wf(),
            forall|i: int| 0 <= i < elems_chirho@.len() ==> #[trigger] elems_chirho@[i] < old(self).num_classes(),
            old(self).num_classes() + elems_chirho@.len() < u32::MAX,
        ensures
            final(self).wf(),
            Self::grows(*old(self), *final(self)),
            final(self).num_classes() <= old(self).num_classes() + elems_chirho@.len() + 1,
            r < final(self).num_classes(),
            final(self).find(r as int) == r,
            final(self).is_list(r, elems_chirho@),
    {
        let ghost start = *self;
        let ghost n0 = self.num_classes();
        let mut result = self.nil_chirho();
        let mut i: usize = elems_chirho.len();
        proof {
            assert(elems_chirho@.subrange(i as int, elems_chirho@.len() as int) =~= Seq::<u32>::empty());
        }
        while i > 0
            invariant
                self.wf(),
                Self::grows(start, *self),
                n0 == start.num_classes(),
                i <= elems_chirho@.len(),
                forall|j: int| 0 <= j < elems_chirho@.len() ==> #[trigger] elems_chirho@[j] < n0,
                n0 + elems_chirho@.len() < u32::MAX,
                n0 <= self.num_classes() <= n0 + 1 + (elems_chirho@.len() - i),
                result < self.num_classes(),
                self.find(result as int) == result,
                self.is_list(result, elems_chirho@.subrange(i as int, elems_chirho@.len() as int)),
            decreases i,
        {
            i = i - 1;
            let ghost prev = result;
            let ghost before = *self;
            let ghost rest = elems_chirho@.subrange(i + 1, elems_chirho@.len() as int);
            let ghost whole = elems_chirho@.subrange(i as int, elems_chirho@.len() as int);
            result = self.cons_chirho(elems_chirho[i], result);
            proof {
                assert(rest =~= elems_chirho@.subrange((i + 1) as int, elems_chirho@.len() as int));
                assert forall|j: int| 0 <= j < rest.len() implies #[trigger] rest[j] < before.num_classes() by {
                    assert(rest[j] == elems_chirho@[i + 1 + j]);
                }
                lemma_is_list_grows(before, *self, prev, rest);
                assert(whole[0] == elems_chirho@[i as int]);
                assert(whole.skip(1) =~= rest);
                assert(self.holds(result, ENodeChirho::ConsChirho(whole[0], prev)));
                assert(self.is_list(result, whole));
                lemma_grows_trans(start, before, *self);
            }
        }
        proof {
            assert(elems_chirho@.subrange(0, elems_chirho@.len() as int) =~= elems_chirho@);
        }
        result
    }

    /// The class of the list of the integers `vals`.
    pub fn list_ints_chirho(&mut self, vals_chirho: &[i64]) -> (r: u32)
        requires
            old(self).wf(),
            old(self).num_classes() + 2 * vals_chirho@.len() < u32::MAX,
        ensures
            final(self).wf(),
            Self::grows(*old(self), *final(self)),
            r < final(self).num_classes(),
            final(self).find(r as int) == r,
            exists|ids: Seq<u32>| {
                &&& ids.len() == vals_chirho@.len()
                &&& forall|j: int| 0 <= j < ids.len() ==> #[trigger] ids[j] < final(self).num_classes()
                    && final(self).holds(ids[j], ENodeChirho::IntChirho(vals_chirho@[j]))
                &&& #[trigger] final(self).is_list(r, ids)
            },
    {
        let ghost start = *self;
        let ghost n0 = self.num_classes();
        let mut ids: Vec<u32> = Vec::new();
        let mut i: usize = 0;
        while i < vals_chirho.len()
            invariant
                self.wf(),
                Self::grows(start, *self),
                i <= vals_chirho@.len(),
                ids@.len() == i,
                n0 == start.num_classes(),
                n0 + 2 * vals_chirho@.len() < u32::MAX,
                n0 <= self.num_classes() <= n0 + i,
                forall|j: int| 0 <= j < i ==> #[trigger] ids@[j] < self.num_classes()
                    && self.holds(ids@[j], ENodeChirho::IntChirho(vals_chirho@[j])),
            decreases vals_chirho@.len() - i,
        {
            let ghost before = *self;
            let id = self.int_chirho(vals_chirho[i]);
            proof {
                assert forall|j: int| 0 <= j < i implies #[trigger] ids@[j] < self.num_classes()
                    && self.holds(ids@[j], ENodeChirho::IntChirho(vals_chirho@[j])) by {
                    lemma_holds_grows(before, *self, ids@[j], ENodeChirho::IntChirho(vals_chirho@[j]));
                }
                lemma_grows_trans(start, before, *self);
            }
            ids.push(id);
            i = i + 1;
        }
        let ghost mid = *self;
        let r = self.list_chirho(ids.as_slice());
        proof {
            assert forall|j: int| 0 <= j < ids@.len() implies #[trigger] ids@[j] < self.num_classes()
                && self.holds(ids@[j], ENodeChirho::IntChirho(vals_chirho@[j])) by {
                lemma_holds_grows(mid, *self, ids@[j], ENodeChirho::IntChirho(vals_chirho@[j]));
            }
            lemma_grows_trans(start, mid, *self);
            assert(self.is_list(r, ids@));
        }
        r
    }

    /// Analysis data of a new class holding `n`.
    fn analyze_chirho(&self, node_chirho: ENodeChirho) -> (r: EClassDataChirho)
        requires
            self.wf(),
            children_ok(node_chirho, self.num_classes() as int),
            symbol_ok(node_chirho, self.symbols().len() as int),
        ensures
            r == self.analysis(node_chirho),
    {
        let is_ground = match node_chirho {
            ENodeChirho::NilChirho => true,
            ENodeChirho::IntChirho(_) => true,
            ENodeChirho::SymChirho(s) => {
                let name = &self.symbols_chirho[s as usize];
                proof {
                    assert(self.symbols()[s as int] == name@);
                }
                !(name.len() >= 2 && name[0] == 95u8 && name[1] == 118u8)
            },
            ENodeChirho::ConsChirho(a, b) | ENodeChirho::AppChirho(a, b) => {
                let ra = self.uf_chirho.find_immut_chirho(a);
                let rb = self.uf_chirho.find_immut_chirho(b);
                self.class_data_chirho[ra as usize].is_ground_chirho
                    && self.class_data_chirho[rb as usize].is_ground_chirho
            },
        };
        let constant = match node_chirho {
            ENodeChirho::IntChirho(v) => Some(v),
            _ => None,
        };
        EClassDataChirho { is_ground_chirho: is_ground, constant_chirho: constant, domain_chirho: BitVec64Chirho(0) }
    }
}

/// Adding a node over more classes leaves its canonical form alone.
pub proof fn lemma_canon_push(n: ENodeChirho, p: Seq<u32>, v: u32)
    requires
        children_ok(n, p.len() as int),
    ensures
        canon(n, p.push(v)) == canon(n, p),
{
}

/// Hash-consing: adding the same node twice gives the same class both times,
/// and the second addition changes nothing.
pub proof fn lemma_add_hashcons(
    e0: EGraphNativeChirho,
    n: ENodeChirho,
    e1: EGraphNativeChirho,
    r1: u32,
    e2: EGraphNativeChirho,
    r2: u32,
)
    requires
        e0.wf(),
        children_ok(n, e0.num_classes() as int),
        EGraphNativeChirho::added(e0, n, e1, r1),
        EGraphNativeChirho::added(e1, n, e2, r2),
    ensures
        r2 == r1,
        e2 == e1,
{
    let c0 = canon(n, e0.rep());
    if e0.has_node(c0) {
        let k1 = choose|k: int| #[trigger] e0.first_node(c0, k) && r1 == e0.find(e0.class_of()[k] as int);
        let k2 = choose|k: int| #[trigger] e1.first_node(c0, k) && r2 == e1.find(e1.class_of()[k] as int);
        assert(e1.has_node(c0));
        if k1 < k2 {
            assert(canon(e1.nodes()[k1], e1.rep()) != c0);
        } else if k2 < k1 {
            assert(canon(e0.nodes()[k2], e0.rep()) != c0);
        }
    } else {
        let old_len = e0.nodes().len() as int;
        lemma_canon_push(n, e0.rep(), r1);
        assert(e1.nodes()[old_len] == c0);
        lemma_canon_push(c0, e0.rep(), r1);
        assert forall|j: int| 0 <= j < old_len implies canon(#[trigger] e1.nodes()[j], e1.rep()) != c0 by {
            assert(e0.class_of()[j] < e0.rep().len());
            assert(e1.nodes()[j] == e0.nodes()[j]);
            lemma_canon_push(e0.nodes()[j], e0.rep(), r1);
        }
        assert(e1.first_node(c0, old_len));
        assert(e1.has_node(canon(n, e1.rep())));
        let k2 = choose|k: int| #[trigger] e1.first_node(c0, k) && r2 == e1.find(e1.class_of()[k] as int);
        if k2 < old_len {
            assert(canon(e1.nodes()[k2], e1.rep()) != c0);
        }
        assert(k2 == old_len);
    }
}

/// Growing the e-graph keeps every node a class holds.
pub proof fn lemma_holds_grows(pre: EGraphNativeChirho, post: EGraphNativeChirho, r: u32, n: ENodeChirho)
    requires
        pre.wf(),
        EGraphNativeChirho::grows(pre, post),
        children_ok(n, pre.num_classes() as int),
        pre.holds(r, n),
    ensures
        post.holds(r, n),
{
    let k = choose|k: int|
        0 <= k < pre.nodes().len() && canon(#[trigger] pre.nodes()[k], pre.rep()) == canon(n, pre.rep())
            && pre.find(pre.class_of()[k] as int) == r;
    assert(post.nodes()[k] == pre.nodes()[k]);
    assert(post.class_of()[k] == pre.class_of()[k]);
    assert(pre.class_of()[k] < pre.rep().len());
    assert(canon(post.nodes()[k], post.rep()) == canon(n, post.rep()));
}

/// Growing the e-graph keeps every list a class holds.
pub proof fn lemma_is_list_grows(pre: EGraphNativeChirho, post: EGraphNativeChirho, r: u32, s: Seq<u32>)
    requires
        pre.wf(),
        EGraphNativeChirho::grows(pre, post),
        r < pre.num_classes(),
        forall|i: int| 0 <= i < s.len() ==> #[trigger] s[i] < pre.num_classes(),
        pre.is_list(r, s),
    ensures
        post.is_list(r, s),
    decreases s.len(),
{
    if s.len() == 0 {
        lemma_holds_grows(pre, post, r, ENodeChirho::NilChirho);
    } else {
        let t = choose|t: u32| #![trigger pre.holds(r, ENodeChirho::ConsChirho(s[0], t))]
            t < pre.num_classes() && pre.holds(r, ENodeChirho::ConsChirho(s[0], t)) && pre.is_list(t, s.skip(1));
        lemma_holds_grows(pre, post, r, ENodeChirho::ConsChirho(s[0], t));
        assert forall|i: int| 0 <= i < s.skip(1).len() implies #[trigger] s.skip(1)[i] < pre.num_classes() by {
            assert(s.skip(1)[i] == s[i + 1]);
        }
        lemma_is_list_grows(pre, post, t, s.skip(1));
        assert(post.holds(r, ENodeChirho::ConsChirho(s[0], t)));
    }
}

/// A prefix of a prefix is a prefix.
pub proof fn lemma_prefix_trans<A>(a: Seq<A>, b: Seq<A>, c: Seq<A>)
    requires
        a.is_prefix_of(b),
        b.is_prefix_of(c),
    ensures
        a.is_prefix_of(c),
{
    assert(a =~= c.subrange(0, a.len() as int)) by {
        assert forall|i: int| 0 <= i < a.len() implies a[i] == c[i] by {
            assert(a[i] == b[i]);
            assert(b[i] == c[i]);
        }
    }
}

/// Growing twice is growing.
pub proof fn lemma_grows_trans(a: EGraphNativeChirho, b: EGraphNativeChirho, c: EGraphNativeChirho)
    requires
        EGraphNativeChirho::grows(a, b),
        EGraphNativeChirho::grows(b, c),
    ensures
        EGraphNativeChirho::grows(a, c),
{
    assert(a.nodes() =~= c.nodes().subrange(0, a.nodes().len() as int)) by {
        assert(a.nodes() =~= b.nodes().subrange(0, a.nodes().len() as int));
        assert(b.nodes() =~= c.nodes().subrange(0, b.nodes().len() as int));
    }
    assert(a.class_of() =~= c.class_of().subrange(0, a.class_of().len() as int)) by {
        assert(a.class_of() =~= b.class_of().subrange(0, a.class_of().len() as int));
        assert(b.class_of() =~= c.class_of().subrange(0, b.class_of().len() as int));
    }
    assert(a.data() =~= c.data().subrange(0, a.data().len() as int)) by {
        assert(a.data() =~= b.data().subrange(0, a.data().len() as int));
        assert(b.data() =~= c.data().subrange(0, b.data().len() as int));
    }
    assert(a.symbols() =~= c.symbols().subrange(0, a.symbols().len() as int)) by {
        assert(a.symbols() =~= b.symbols().subrange(0, a.symbols().len() as int));
        assert(b.symbols() =~= c.symbols().subrange(0, b.symbols().len() as int));
    }
}


/// The layer of a node with each child replaced by the groundness of its
/// class in `e`, and a symbol that names a logic variable read as a variable.
pub open spec fn ground_view(e: EGraphNativeChirho, n: ENodeChirho) -> TermFChirho<bool> {
    match n {
        ENodeChirho::NilChirho => TermFChirho::NilFChirho,
        ENodeChirho::IntChirho(v) => TermFChirho::IntFChirho(v),
        ENodeChirho::SymChirho(s) => if is_var_name(e.symbols()[s as int]) {
            TermFChirho::VarFChirho(s)
        } else {
            TermFChirho::SymFChirho(s)
        },
        ENodeChirho::ConsChirho(h, t) => TermFChirho::ConsFChirho(
            e.data()[e.find(h as int) as int].is_ground_chirho,
            e.data()[e.find(t as int) as int].is_ground_chirho,
        ),
        ENodeChirho::AppChirho(f, a) => TermFChirho::AppFChirho(
            e.data()[e.find(f as int) as int].is_ground_chirho,
            e.data()[e.find(a as int) as int].is_ground_chirho,
        ),
    }
}

/// Groundness of a new class is sound: the class made for a node is ground
/// exactly when the node's layer is ground in the sense of the term folds (a
/// logic variable is not, a pair is when both parts are, every other leaf
/// is), so a cons or application is ground only when both of its children's
/// classes are; it holds a constant exactly when the node is an integer.
pub proof fn lemma_added_ground(e0: EGraphNativeChirho, n: ENodeChirho, e1: EGraphNativeChirho, r: u32)
    requires
        e0.wf(),
        children_ok(n, e0.num_classes() as int),
        EGraphNativeChirho::added(e0, n, e1, r),
        !e0.has_node(canon(n, e0.rep())),
    ensures
        e1.data()[r as int].is_ground_chirho == ground_layer(ground_view(e0, n)),
        n matches ENodeChirho::ConsChirho(h, t) ==> (e1.data()[r as int].is_ground_chirho <==> (
            e0.data()[e0.find(h as int) as int].is_ground_chirho && e0.data()[e0.find(t as int) as int].is_ground_chirho)),
        n matches ENodeChirho::AppChirho(f, a) ==> (e1.data()[r as int].is_ground_chirho <==> (
            e0.data()[e0.find(f as int) as int].is_ground_chirho && e0.data()[e0.find(a as int) as int].is_ground_chirho)),
        n matches ENodeChirho::SymChirho(s) ==> (e1.data()[r as int].is_ground_chirho <==> !is_var_name(e0.symbols()[s as int])),
        (n is NilChirho || n is IntChirho) ==> e1.data()[r as int].is_ground_chirho,
        e1.data()[r as int].constant_chirho == (match n {
            ENodeChirho::IntChirho(v) => Some(v),
            _ => None,
        }),
{
    assert(e1.data()[r as int] == e0.analysis(n));
}

/// Do the two byte strings agree?
fn bytes_eq_chirho(a_chirho: &Vec<u8>, b_chirho: &Vec<u8>) -> (r: bool)
    ensures
        r == (a_chirho@ == b_chirho@),
{
    if a_chirho.len() != b_chirho.len() {
        return false;
    }
    let mut i: usize = 0;
    while i < a_chirho.len()
        invariant
            a_chirho@.len() == b_chirho@.len(),
            i <= a_chirho@.len(),
            forall|j: int| 0 <= j < i ==> a_chirho@[j] == b_chirho@[j],
        decreases a_chirho@.len() - i,
    {
        if a_chirho[i] != b_chirho[i] {
            return false;
        }
        i = i + 1;
    }
    assert(a_chirho@ =~= b_chirho@);
    true
}

/// Decimal digits of `n` as ASCII bytes.
pub fn dec_bytes_chirho(n_chirho: u32) -> (r: Vec<u8>)
    ensures
        r@ == dec_digits(n_chirho as nat),
    decreases n_chirho,
{
    if n_chirho < 10 {
        let mut v: Vec<u8> = Vec::new();
        v.push((48 + n_chirho) as u8);
        assert(v@ =~= dec_digits(n_chirho as nat));
        v
    } else {
        let mut v = dec_bytes_chirho(n_chirho / 10);
        v.push((48 + n_chirho % 10) as u8);
        assert(v@ =~= dec_digits(n_chirho as nat));
        v
    }
}

} // verus!
