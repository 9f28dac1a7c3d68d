//! Min-degree elimination order of the indices of a tensor network.
//!
//! The indices form a graph (two indices are adjacent when some tensor holds
//! both). Entries `(degree, index)` wait in a priority queue; the smallest
//! entry (by degree, then by name) is taken, and unless its index was already
//! eliminated the index is eliminated: its remaining neighbours are joined
//! pairwise and re-entered with their new degrees. Indices held by exactly
//! one tensor (outputs) are never entered.

use vstd::prelude::*;
use vstd::multiset::Multiset;
use vstd::string::StrSliceExecFns;
use crate::contraction::{TensorNodeChirho, TensorNetworkChirho, strs, copy_strings_chirho};

verus! {

broadcast use {vstd::multiset::group_multiset_axioms, vstd::multiset::group_multiset_properties};

/// Lexicographic order of texts, the order `String` compares by.
pub open spec fn text_le(a: Seq<char>, b: Seq<char>) -> bool
    decreases a.len(),
{
    if a.len() == 0 {
        true
    } else if b.len() == 0 {
        false
    } else if a[0] != b[0] {
        a[0] < b[0]
    } else {
        text_le(a.drop_first(), b.drop_first())
    }
}

/// Queue order: by degree, then by name.
pub open spec fn entry_le(x: (int, Seq<char>), y: (int, Seq<char>)) -> bool {
    x.0 < y.0 || (x.0 == y.0 && text_le(x.1, y.1))
}

/// Any two texts are ordered one way or the other.
pub proof fn lemma_text_total(a: Seq<char>, b: Seq<char>)
    ensures
        text_le(a, b) || text_le(b, a),
    decreases a.len(),
{
    if a.len() > 0 && b.len() > 0 && a[0] == b[0] {
        lemma_text_total(a.drop_first(), b.drop_first());
    }
}

/// Texts ordered both ways are equal.
pub proof fn lemma_text_antisym(a: Seq<char>, b: Seq<char>)
    requires
        text_le(a, b),
        text_le(b, a),
    ensures
        a == b,
    decreases a.len(),
{
    if a.len() == 0 {
        assert(b.len() == 0);
        assert(a =~= b);
    } else {
        assert(b.len() > 0);
        if a[0] == b[0] {
            lemma_text_antisym(a.drop_first(), b.drop_first());
            assert(a =~= seq![a[0]] + a.drop_first());
            assert(b =~= seq![b[0]] + b.drop_first());
        }
    }
}

/// The text order is transitive.
pub proof fn lemma_text_trans(a: Seq<char>, b: Seq<char>, c: Seq<char>)
    requires
        text_le(a, b),
        text_le(b, c),
    ensures
        text_le(a, c),
    decreases a.len(),
{
    if a.len() > 0 && b.len() > 0 && c.len() > 0 {
        if a[0] == b[0] && b[0] == c[0] {
            lemma_text_trans(a.drop_first(), b.drop_first(), c.drop_first());
        }
    }
}

/// A non-empty queue has a smallest entry.
pub proof fn lemma_min_exists(h: Multiset<(int, Seq<char>)>)
    requires
        h.len() > 0,
    ensures
        exists|m: (int, Seq<char>)| h.contains(m) && forall|x: (int, Seq<char>)| #[trigger] h.contains(x) ==> entry_le(m, x),
    decreases h.len(),
{
    let x = h.choose();
    assert(h.contains(x));
    let h2 = h.remove(x);
    assert(h2.len() == h.len() - 1);
    if h2.len() == 0 {
        assert forall|y: (int, Seq<char>)| #[trigger] h.contains(y) implies entry_le(x, y) by {
            if y != x {
                assert(h2.contains(y));
            } else {
                lemma_text_total(x.1, x.1);
            }
        }
        lemma_witness(h, x);
    } else {
        lemma_min_exists(h2);
        let m2 = choose|m: (int, Seq<char>)| h2.contains(m) && forall|y: (int, Seq<char>)| #[trigger] h2.contains(y) ==> entry_le(m, y);
        lemma_text_total(x.1, m2.1);
        if entry_le(x, m2) {
            assert forall|y: (int, Seq<char>)| #[trigger] h.contains(y) implies entry_le(x, y) by {
                if y == x {
                    lemma_text_total(x.1, x.1);
                } else {
                    assert(h2.contains(y));
                    assert(entry_le(m2, y));
                    if x.0 == m2.0 && m2.0 == y.0 {
                        lemma_text_trans(x.1, m2.1, y.1);
                    }
                }
            }
            lemma_witness(h, x);
        } else {
            assert(entry_le(m2, x));
            assert(h.contains(m2));
            assert forall|y: (int, Seq<char>)| #[trigger] h.contains(y) implies entry_le(m2, y) by {
                if y != x {
                    assert(h2.contains(y));
                }
            }
            lemma_witness(h, m2);
        }
    }
}

proof fn lemma_witness(h: Multiset<(int, Seq<char>)>, m: (int, Seq<char>))
    requires
        h.contains(m),
        forall|x: (int, Seq<char>)| #[trigger] h.contains(x) ==> entry_le(m, x),
    ensures
        exists|m: (int, Seq<char>)| h.contains(m) && forall|x: (int, Seq<char>)| #[trigger] h.contains(x) ==> entry_le(m, x),
{
}

/// Two smallest entries are the same entry.
pub proof fn lemma_min_unique(h: Multiset<(int, Seq<char>)>, m1: (int, Seq<char>), m2: (int, Seq<char>))
    requires
        h.contains(m1),
        h.contains(m2),
        forall|x: (int, Seq<char>)| #[trigger] h.contains(x) ==> entry_le(m1, x),
        forall|x: (int, Seq<char>)| #[trigger] h.contains(x) ==> entry_le(m2, x),
    ensures
        m1 == m2,
{
    assert(entry_le(m1, m2) && entry_le(m2, m1));
    lemma_text_antisym(m1.1, m2.1);
}

/// Index lists of the tensors.
pub open spec fn index_sets(v: Seq<TensorNodeChirho>) -> Seq<Seq<Seq<char>>> {
    v.map_values(|t: TensorNodeChirho| strs(t.indices_chirho@))
}

/// Two different indices held by one tensor.
pub open spec fn together(ts: Seq<Seq<Seq<char>>>, a: Seq<char>, b: Seq<char>) -> bool {
    a != b && exists|t: int| 0 <= t < ts.len() && #[trigger] ts[t].contains(a) && ts[t].contains(b)
}

/// The index graph, as its set of (directed, symmetric) edges.
pub open spec fn graph0(ts: Seq<Seq<Seq<char>>>) -> Set<(Seq<char>, Seq<char>)> {
    Set::new(|p: (Seq<char>, Seq<char>)| together(ts, p.0, p.1))
}

/// Neighbours of `a`.
pub open spec fn nbrs(g: Set<(Seq<char>, Seq<char>)>, a: Seq<char>) -> Set<Seq<char>> {
    Set::new(|b: Seq<char>| g.contains((a, b)))
}

/// `a` has a neighbour.
pub open spec fn in_graph(g: Set<(Seq<char>, Seq<char>)>, a: Seq<char>) -> bool {
    exists|b: Seq<char>| #[trigger] g.contains((a, b))
}

/// Number of tensors holding `a`.
pub open spec fn occurrences(ts: Seq<Seq<Seq<char>>>, a: Seq<char>) -> nat
    decreases ts.len(),
{
    if ts.len() == 0 {
        0
    } else {
        occurrences(ts.drop_last(), a) + if ts.last().contains(a) { 1nat } else { 0nat }
    }
}

/// `a` is an output index: exactly one tensor holds it.
pub open spec fn is_output(ts: Seq<Seq<Seq<char>>>, a: Seq<char>) -> bool {
    occurrences(ts, a) == 1
}

/// Number of neighbours of `a` not yet eliminated.
pub open spec fn live_degree(g: Set<(Seq<char>, Seq<char>)>, a: Seq<char>, e: Set<Seq<char>>) -> int {
    nbrs(g, a).difference(e).len() as int
}

/// All index names of the tensors.
pub open spec fn names(ts: Seq<Seq<Seq<char>>>) -> Set<Seq<char>>
    decreases ts.len(),
{
    if ts.len() == 0 {
        Set::empty()
    } else {
        names(ts.drop_last()).union(ts.last().to_set())
    }
}

/// The starting queue: every index with a neighbour that is not an output,
/// with its degree.
pub open spec fn heap0(ts: Seq<Seq<Seq<char>>>) -> Multiset<(int, Seq<char>)> {
    Multiset::from_set(Set::new(|x: (int, Seq<char>)|
        in_graph(graph0(ts), x.1) && !is_output(ts, x.1) && x.0 == nbrs(graph0(ts), x.1).len()))
}

/// The graph with the indices of `act` joined pairwise.
pub open spec fn fill(g: Set<(Seq<char>, Seq<char>)>, act: Set<Seq<char>>) -> Set<(Seq<char>, Seq<char>)> {
    g.union(Set::new(|p: (Seq<char>, Seq<char>)| act.contains(p.0) && act.contains(p.1) && p.0 != p.1))
}

/// The entries re-entered for the neighbours `act`, with their degrees in `g`.
pub open spec fn pushes(ts: Seq<Seq<Seq<char>>>, g: Set<(Seq<char>, Seq<char>)>, act: Set<Seq<char>>, e: Set<Seq<char>>)
    -> Multiset<(int, Seq<char>)>
{
    Multiset::from_set(Set::new(|x: (int, Seq<char>)| act.contains(x.1) && !is_output(ts, x.1) && x.0 == live_degree(g, x.1, e)))
}

/// The smallest queue entry.
pub open spec fn heap_min(h: Multiset<(int, Seq<char>)>) -> (int, Seq<char>) {
    choose|m: (int, Seq<char>)| h.contains(m) && forall|x: (int, Seq<char>)| #[trigger] h.contains(x) ==> entry_le(m, x)
}

/// The queue and the graph only name indices of the tensors.
pub open spec fn md_inv(ts: Seq<Seq<Seq<char>>>, g: Set<(Seq<char>, Seq<char>)>, h: Multiset<(int, Seq<char>)>) -> bool {
    &&& names(ts).finite()
    &&& forall|x: (int, Seq<char>)| #[trigger] h.contains(x) ==> names(ts).contains(x.1)
    &&& forall|p: (Seq<char>, Seq<char>)| #[trigger] g.contains(p) ==> names(ts).contains(p.0) && names(ts).contains(p.1)
}

/// The elimination order from a state: take the smallest entry; skip it if
/// its index is eliminated, else eliminate the index, join its remaining
/// neighbours and re-enter those that are not outputs.
pub open spec fn md_run(
    ts: Seq<Seq<Seq<char>>>,
    g: Set<(Seq<char>, Seq<char>)>,
    h: Multiset<(int, Seq<char>)>,
    e: Set<Seq<char>>,
    o: Seq<Seq<char>>,
) -> Seq<Seq<char>>
    decreases names(ts).difference(e).len(), h.len()
    when md_inv(ts, g, h)
{
    if h.len() == 0 {
        o
    } else {
        let m = heap_min(h);
        let h1 = h.remove(m);
        proof {
            lemma_min_exists(h);
        }
        if e.contains(m.1) {
            md_run(ts, g, h1, e, o)
        } else {
            let v = m.1;
            let e1 = e.insert(v);
            let act = nbrs(g, v).difference(e1);
            let g1 = fill(g, act);
            proof {
                assert(names(ts).difference(e1) =~= names(ts).difference(e).remove(v));
            }
            md_run(ts, g1, h1.add(pushes(ts, g1, act, e1)), e1, o.push(v))
        }
    }
}

/// The min-degree elimination order of a network's tensors.
pub open spec fn md_order(ts: Seq<Seq<Seq<char>>>) -> Seq<Seq<char>> {
    md_run(ts, graph0(ts), heap0(ts), Set::empty(), Seq::empty())
}

/// Compare two texts in the order `String` uses.
fn text_le_chirho(a: &String, b: &String) -> (r: bool)
    ensures
        r == text_le(a@, b@),
{
    let sa = a.as_str();
    let sb = b.as_str();
    let la = sa.unicode_len();
    let lb = sb.unicode_len();
    let mut i: usize = 0;
    proof {
        assert(a@.skip(0) =~= a@);
        assert(b@.skip(0) =~= b@);
    }
    while i < la && i < lb
        invariant
            sa@ == a@,
            sb@ == b@,
            la == a@.len(),
            lb == b@.len(),
            i <= la,
            i <= lb,
            text_le(a@, b@) == text_le(a@.skip(i as int), b@.skip(i as int)),
        decreases la - i,
    {
        let ca = sa.get_char(i);
        let cb = sb.get_char(i);
        proof {
            assert(a@.skip(i as int)[0] == ca);
            assert(b@.skip(i as int)[0] == cb);
            assert(a@.skip(i as int).drop_first() =~= a@.skip(i + 1));
            assert(b@.skip(i as int).drop_first() =~= b@.skip(i + 1));
        }
        if ca != cb {
            return ca < cb;
        }
        i = i + 1;
    }
    i == la
}

/// Queue order on entries.
fn entry_le_chirho(x: &(usize, String), y: &(usize, String)) -> (r: bool)
    ensures
        r == entry_le((x.0 as int, x.1@), (y.0 as int, y.1@)),
{
    x.0 < y.0 || (x.0 == y.0 && text_le_chirho(&x.1, &y.1))
}

/// The edges an adjacency list stands for.
pub open spec fn rel(adj: Seq<(String, Vec<String>)>) -> Set<(Seq<char>, Seq<char>)> {
    Set::new(|p: (Seq<char>, Seq<char>)| exists|i: int| 0 <= i < adj.len() && #[trigger] adj[i].0@ == p.0
        && strs(adj[i].1@).contains(p.1))
}

/// Keys are distinct and each list is non-empty and without repeats.
pub open spec fn adj_ok(adj: Seq<(String, Vec<String>)>) -> bool {
    &&& forall|i: int, j: int| 0 <= i < j < adj.len() ==> #[trigger] adj[i].0@ != #[trigger] adj[j].0@
    &&& forall|i: int| 0 <= i < adj.len() ==> strs(#[trigger] adj[i].1@).no_duplicates() && adj[i].1.len() > 0
}

fn find_key_chirho(adj: &Vec<(String, Vec<String>)>, a: &String) -> (r: Option<usize>)
    ensures
        r matches Some(i) ==> i < adj.len() && adj@[i as int].0@ == a@,
        r is None ==> forall|i: int| 0 <= i < adj.len() ==> #[trigger] adj@[i].0@ != a@,
{
    let mut i: usize = 0;
    while i < adj.len()
        invariant
            i <= adj.len(),
            forall|t: int| 0 <= t < i ==> #[trigger] adj@[t].0@ != a@,
        decreases adj.len() - i,
    {
        if adj[i].0 == *a {
            return Some(i);
        }
        i = i + 1;
    }
    None
}

fn contains_text_chirho(v: &Vec<String>, s: &String) -> (r: bool)
    ensures
        r == strs(v@).contains(s@),
{
    let mut i: usize = 0;
    while i < v.len()
        invariant
            i <= v.len(),
            forall|t: int| 0 <= t < i ==> strs(v@)[t] != s@,
        decreases v.len() - i,
    {
        if v[i] == *s {
            proof {
                assert(strs(v@)[i as int] == s@);
            }
            return true;
        }
        i = i + 1;
    }
    false
}

/// Add the edge `a -> b`.
fn add_edge_chirho(adj: &mut Vec<(String, Vec<String>)>, a: &String, b: &String)
    requires
        adj_ok(old(adj)@),
    ensures
        adj_ok(final(adj)@),
        rel(final(adj)@) == rel(old(adj)@).insert((a@, b@)),
{
    let ghost a0 = adj@;
    match find_key_chirho(adj, a) {
        Some(i) => {
            if !contains_text_chirho(&adj[i].1, b) {
                let mut nl = copy_strings_chirho(&adj[i].1);
                let ghost nl0 = nl@;
                nl.push(b.clone());
                let k = adj[i].0.clone();
                adj.set(i, (k, nl));
                proof {
                    assert(strs(nl@) =~= strs(nl0).push(b@));
                    assert forall|x: int, y: int| 0 <= x < y < adj@.len() implies #[trigger] adj@[x].0@ != #[trigger] adj@[y].0@ by {
                        assert(a0[x].0@ != a0[y].0@);
                    }
                    assert forall|x: int| 0 <= x < adj@.len() implies strs(#[trigger] adj@[x].1@).no_duplicates() && adj@[x].1.len() > 0 by {
                        if x == i {
                            assert(strs(a0[x].1@).no_duplicates());
                        }
                    }
                    assert forall|p: (Seq<char>, Seq<char>)| #[trigger] rel(adj@).contains(p) == rel(a0).insert((a@, b@)).contains(p) by {
                        if rel(adj@).contains(p) {
                            let x = choose|x: int| 0 <= x < adj@.len() && #[trigger] adj@[x].0@ == p.0 && strs(adj@[x].1@).contains(p.1);
                            if x == i && p.1 != b@ {
                                let y = choose|y: int| 0 <= y < strs(adj@[x].1@).len() && strs(adj@[x].1@)[y] == p.1;
                                assert(strs(nl0).contains(p.1)) by {
                                    assert(strs(nl0)[y] == p.1);
                                }
                                assert(a0[x].0@ == p.0);
                            } else if x != i {
                                assert(a0[x].0@ == p.0 && strs(a0[x].1@).contains(p.1));
                            }
                        }
                        if rel(a0).insert((a@, b@)).contains(p) {
                            if p == (a@, b@) {
                                assert(strs(adj@[i as int].1@)[nl0.len() as int] == b@);
                                assert(adj@[i as int].0@ == p.0);
                            } else {
                                let x = choose|x: int| 0 <= x < a0.len() && #[trigger] a0[x].0@ == p.0 && strs(a0[x].1@).contains(p.1);
                                if x == i {
                                    let y = choose|y: int| 0 <= y < strs(a0[x].1@).len() && strs(a0[x].1@)[y] == p.1;
                                    assert(strs(adj@[x].1@)[y] == p.1);
                                }
                                assert(adj@[x].0@ == p.0);
                            }
                        }
                    }
                    assert(rel(adj@) =~= rel(a0).insert((a@, b@)));
                }
            } else {
                proof {
                    assert(rel(a0).contains((a@, b@)));
                    assert(rel(a0).insert((a@, b@)) =~= rel(a0));
                }
            }
        },
        None => {
            let mut nl: Vec<String> = Vec::new();
            nl.push(b.clone());
            let k = a.clone();
            adj.push((k, nl));
            proof {
                let n = a0.len() as int;
                assert(strs(adj@[n].1@) =~= seq![b@]);
                assert forall|x: int, y: int| 0 <= x < y < adj@.len() implies #[trigger] adj@[x].0@ != #[trigger] adj@[y].0@ by {
                    if y < n {
                        assert(a0[x].0@ != a0[y].0@);
                    }
                }
                assert forall|x: int| 0 <= x < adj@.len() implies strs(#[trigger] adj@[x].1@).no_duplicates() && adj@[x].1.len() > 0 by {
                    if x < n {
                        assert(adj@[x] == a0[x]);
                    }
                }
                assert forall|p: (Seq<char>, Seq<char>)| #[trigger] rel(adj@).contains(p) == rel(a0).insert((a@, b@)).contains(p) by {
                    if rel(adj@).contains(p) {
                        let x = choose|x: int| 0 <= x < adj@.len() && #[trigger] adj@[x].0@ == p.0 && strs(adj@[x].1@).contains(p.1);
                        if x < n {
                            assert(a0[x].0@ == p.0 && strs(a0[x].1@).contains(p.1));
                        } else {
                            assert(strs(adj@[x].1@)[0] == b@);
                        }
                    }
                    if rel(a0).insert((a@, b@)).contains(p) {
                        if p == (a@, b@) {
                            assert(strs(adj@[n].1@)[0] == b@);
                            assert(adj@[n].0@ == p.0);
                        } else {
                            let x = choose|x: int| 0 <= x < a0.len() && #[trigger] a0[x].0@ == p.0 && strs(a0[x].1@).contains(p.1);
                            assert(adj@[x] == a0[x]);
                        }
                    }
                }
                assert(rel(adj@) =~= rel(a0).insert((a@, b@)));
            }
        },
    }
}

/// The neighbours of `a`, without repeats.
fn nbr_list_chirho(adj: &Vec<(String, Vec<String>)>, a: &String) -> (r: Vec<String>)
    requires
        adj_ok(adj@),
    ensures
        strs(r@).no_duplicates(),
        strs(r@).to_set() == nbrs(rel(adj@), a@),
{
    match find_key_chirho(adj, a) {
        Some(i) => {
            let r = copy_strings_chirho(&adj[i].1);
            proof {
                assert forall|b: Seq<char>| #[trigger] strs(r@).to_set().contains(b) == nbrs(rel(adj@), a@).contains(b) by {
                    if nbrs(rel(adj@), a@).contains(b) {
                        let x = choose|x: int| 0 <= x < adj@.len() && #[trigger] adj@[x].0@ == a@ && strs(adj@[x].1@).contains(b);
                        if x != i {
                            if x < i {
                                assert(adj@[x].0@ != adj@[i as int].0@);
                            } else {
                                assert(adj@[i as int].0@ != adj@[x].0@);
                            }
                        }
                    }
                    if strs(r@).to_set().contains(b) {
                        assert(rel(adj@).contains((a@, b)));
                    }
                }
                assert(strs(r@).to_set() =~= nbrs(rel(adj@), a@));
            }
            r
        },
        None => {
            let r: Vec<String> = Vec::new();
            proof {
                assert(strs(r@).to_set() =~= nbrs(rel(adj@), a@));
            }
            r
        },
    }
}

/// How many entries of a list without repeats are not eliminated.
fn count_live_chirho(list: &Vec<String>, elim: &Vec<String>) -> (r: usize)
    requires
        strs(list@).no_duplicates(),
    ensures
        strs(list@).to_set().difference(strs(elim@).to_set()).finite(),
        r == strs(list@).to_set().difference(strs(elim@).to_set()).len(),
{
    let ghost ls = strs(list@);
    let ghost es = strs(elim@).to_set();
    let mut c: usize = 0;
    let mut i: usize = 0;
    proof {
        assert(ls.take(0).to_set().difference(es) =~= Set::<Seq<char>>::empty());
    }
    while i < list.len()
        invariant
            i <= list.len(),
            ls == strs(list@),
            es == strs(elim@).to_set(),
            ls.no_duplicates(),
            c <= i,
            ls.take(i as int).to_set().difference(es).finite(),
            c == ls.take(i as int).to_set().difference(es).len(),
        decreases list.len() - i,
    {
        let ghost before = ls.take(i as int).to_set().difference(es);
        let dead = contains_text_chirho(elim, &list[i]);
        let ghost x = ls[i as int];
        proof {
            assert(ls.take(i + 1) =~= ls.take(i as int).push(x));
            ls.take(i as int).lemma_push_to_set_commute(x);
            assert(ls.take(i + 1).to_set() =~= ls.take(i as int).to_set().insert(x));
            assert(!ls.take(i as int).to_set().contains(x)) by {
                if ls.take(i as int).to_set().contains(x) {
                    let k = choose|k: int| 0 <= k < i && ls.take(i as int)[k] == x;
                    assert(ls[k] == ls[i as int]);
                }
            }
        }
        if !dead {
            proof {
                assert(ls.take(i + 1).to_set().difference(es) =~= before.insert(x));
            }
            c = c + 1;
        } else {
            proof {
                assert(ls.take(i + 1).to_set().difference(es) =~= before);
            }
        }
        i = i + 1;
    }
    proof {
        assert(ls.take(list.len() as int) =~= ls);
    }
    c
}

/// Number of tensors holding `a` is exactly one.
fn is_output_chirho(tensors: &Vec<TensorNodeChirho>, a: &String) -> (r: bool)
    ensures
        r == is_output(index_sets(tensors@), a@),
{
    let ghost ts = index_sets(tensors@);
    let mut count: usize = 0;
    let mut i: usize = 0;
    proof {
        assert(ts.take(0) =~= Seq::<Seq<Seq<char>>>::empty());
    }
    while i < tensors.len()
        invariant
            i <= tensors.len(),
            ts == index_sets(tensors@),
            count <= i,
            count == occurrences(ts.take(i as int), a@),
        decreases tensors.len() - i,
    {
        let has = contains_text_chirho(&tensors[i].indices_chirho, a);
        proof {
            assert(ts.take(i + 1).drop_last() =~= ts.take(i as int));
            assert(ts.take(i + 1).last() == strs(tensors@[i as int].indices_chirho@));
        }
        if has {
            count = count + 1;
        }
        i = i + 1;
    }
    proof {
        assert(ts.take(tensors.len() as int) =~= ts);
    }
    count == 1
}

/// The edges added after tensors `0..k`, and for tensor `k` the rows `0..i`
/// and the first `j` entries of row `i`.
pub open spec fn built(ts: Seq<Seq<Seq<char>>>, k: int, i: int, j: int) -> Set<(Seq<char>, Seq<char>)> {
    Set::new(|p: (Seq<char>, Seq<char>)| p.0 != p.1 && (together(ts.take(k), p.0, p.1)
        || (exists|i2: int| 0 <= i2 < i && #[trigger] ts[k][i2] == p.0 && ts[k].contains(p.1))
        || (0 <= i < ts[k].len() && ts[k][i] == p.0 && exists|j2: int| 0 <= j2 < j && #[trigger] ts[k][j2] == p.1)))
}

/// The index graph of the tensors.
fn build_graph_chirho(tensors: &Vec<TensorNodeChirho>) -> (adj: Vec<(String, Vec<String>)>)
    ensures
        adj_ok(adj@),
        rel(adj@) == graph0(index_sets(tensors@)),
{
    let ghost ts = index_sets(tensors@);
    let mut adj: Vec<(String, Vec<String>)> = Vec::new();
    let mut k: usize = 0;
    proof {
        assert(rel(adj@) =~= Set::<(Seq<char>, Seq<char>)>::empty());
        assert forall|p: (Seq<char>, Seq<char>)| !together(ts.take(0), p.0, p.1) by {}
        assert(rel(adj@) =~= graph0(ts.take(0)));
    }
    while k < tensors.len()
        invariant
            k <= tensors.len(),
            ts == index_sets(tensors@),
            adj_ok(adj@),
            rel(adj@) == graph0(ts.take(k as int)),
        decreases tensors.len() - k,
    {
        let idx = &tensors[k].indices_chirho;
        let ghost row = ts[k as int];
        proof {
            assert(row == strs(idx@));
            assert(rel(adj@) =~= built(ts, k as int, 0, 0));
        }
        let mut i: usize = 0;
        while i < idx.len()
            invariant
                k < tensors.len(),
                ts == index_sets(tensors@),
                row == ts[k as int],
                row == strs(idx@),
                i <= idx.len(),
                adj_ok(adj@),
                rel(adj@) == built(ts, k as int, i as int, 0),
            decreases idx.len() - i,
        {
            let mut j: usize = 0;
            while j < idx.len()
                invariant
                    k < tensors.len(),
                    ts == index_sets(tensors@),
                    row == ts[k as int],
                    row == strs(idx@),
                    i < idx.len(),
                    j <= idx.len(),
                    adj_ok(adj@),
                    rel(adj@) == built(ts, k as int, i as int, j as int),
                decreases idx.len() - j,
            {
                let ghost before = rel(adj@);
                let ghost pi = row[i as int];
                let ghost pj = row[j as int];
                let same = idx[i] == idx[j];
                if !same {
                    add_edge_chirho(&mut adj, &idx[i], &idx[j]);
                }
                proof {
                    let b0 = built(ts, k as int, i as int, j as int);
                    let b1 = built(ts, k as int, i as int, j + 1);
                    assert forall|p: (Seq<char>, Seq<char>)| #[trigger] b1.contains(p)
                        == (b0.contains(p) || (p == (pi, pj) && pi != pj)) by {
                        if b1.contains(p) && !b0.contains(p) {
                            let j2 = choose|j2: int| 0 <= j2 < j + 1 && #[trigger] ts[k as int][j2] == p.1;
                            if j2 < j {
                                assert(b0.contains(p));
                            }
                        }
                        if b0.contains(p) {
                            if exists|j2: int| 0 <= j2 < j && #[trigger] ts[k as int][j2] == p.1 {
                                let j2 = choose|j2: int| 0 <= j2 < j && #[trigger] ts[k as int][j2] == p.1;
                                assert(0 <= j2 < j + 1 && ts[k as int][j2] == p.1);
                            }
                        }
                        if p == (pi, pj) && pi != pj {
                            assert(ts[k as int][j as int] == p.1);
                        }
                    }
                    assert(rel(adj@) =~= b1);
                }
                j = j + 1;
            }
            proof {
                assert forall|p: (Seq<char>, Seq<char>)| #[trigger] built(ts, k as int, i as int, idx.len() as int).contains(p)
                    == built(ts, k as int, i + 1, 0).contains(p) by {
                    if built(ts, k as int, i + 1, 0).contains(p) {
                        if exists|i2: int| 0 <= i2 < i + 1 && #[trigger] ts[k as int][i2] == p.0 && ts[k as int].contains(p.1) {
                            let i2 = choose|i2: int| 0 <= i2 < i + 1 && #[trigger] ts[k as int][i2] == p.0 && ts[k as int].contains(p.1);
                            if i2 == i {
                                let j2 = choose|j2: int| 0 <= j2 < row.len() && row[j2] == p.1;
                                assert(ts[k as int][j2] == p.1);
                            }
                        }
                    }
                    if built(ts, k as int, i as int, idx.len() as int).contains(p) {
                        if 0 <= i < ts[k as int].len() && ts[k as int][i as int] == p.0 && exists|j2: int| 0 <= j2 < idx.len() && #[trigger] ts[k as int][j2] == p.1 {
                            let j2 = choose|j2: int| 0 <= j2 < idx.len() && #[trigger] ts[k as int][j2] == p.1;
                            assert(row.contains(p.1));
                            assert(ts[k as int][i as int] == p.0);
                        }
                    }
                }
                assert(built(ts, k as int, i as int, idx.len() as int) =~= built(ts, k as int, i + 1, 0));
            }
            i = i + 1;
        }
        proof {
            assert forall|p: (Seq<char>, Seq<char>)| #[trigger] built(ts, k as int, idx.len() as int, 0).contains(p)
                == graph0(ts.take(k + 1)).contains(p) by {
                let tk = ts.take(k as int);
                let tk1 = ts.take(k + 1);
                if graph0(tk1).contains(p) {
                    let t = choose|t: int| 0 <= t < tk1.len() && #[trigger] tk1[t].contains(p.0) && tk1[t].contains(p.1);
                    if t < k {
                        assert(tk[t] == tk1[t]);
                        assert(together(tk, p.0, p.1));
                    } else {
                        let i2 = choose|i2: int| 0 <= i2 < row.len() && row[i2] == p.0;
                        assert(ts[k as int][i2] == p.0);
                    }
                }
                if built(ts, k as int, idx.len() as int, 0).contains(p) {
                    if together(tk, p.0, p.1) {
                        let t = choose|t: int| 0 <= t < tk.len() && #[trigger] tk[t].contains(p.0) && tk[t].contains(p.1);
                        assert(tk1[t] == tk[t]);
                    } else {
                        let i2 = choose|i2: int| 0 <= i2 < idx.len() && #[trigger] ts[k as int][i2] == p.0 && ts[k as int].contains(p.1);
                        assert(tk1[k as int] == row);
                        assert(row.contains(p.0));
                    }
                }
            }
            assert(built(ts, k as int, idx.len() as int, 0) =~= graph0(ts.take(k + 1)));
        }
        k = k + 1;
    }
    proof {
        assert(ts.take(tensors.len() as int) =~= ts);
    }
    adj
}

/// Counts of a multiset built from a finite set.
proof fn lemma_from_set_count(st: Set<(int, Seq<char>)>, x: (int, Seq<char>))
    requires
        st.finite(),
    ensures
        Multiset::from_set(st).count(x) == if st.contains(x) { 1nat } else { 0nat },
{
    let m = Map::new(|k: (int, Seq<char>)| st.contains(k), |v: (int, Seq<char>)| 1nat);
    assert(m.dom() =~= st);
}

/// A list without repeats counts each of its members once.
proof fn lemma_unique_multiset(sq: Seq<(int, Seq<char>)>)
    requires
        sq.no_duplicates(),
    ensures
        sq.to_multiset() =~= Multiset::from_set(sq.to_set()),
    decreases sq.len(),
{
    broadcast use vstd::seq_lib::to_multiset_build, vstd::seq_lib::to_multiset_contains;
    if sq.len() == 0 {
        assert forall|x: (int, Seq<char>)| #[trigger] sq.to_multiset().count(x) == Multiset::from_set(sq.to_set()).count(x) by {
            lemma_from_set_count(sq.to_set(), x);
        }
    } else {
        let init = sq.drop_last();
        let a = sq.last();
        assert(init.no_duplicates());
        lemma_unique_multiset(init);
        assert(sq =~= init.push(a));
        init.lemma_push_to_set_commute(a);
        assert(!init.contains(a));
        assert forall|x: (int, Seq<char>)| #[trigger] sq.to_multiset().count(x) == Multiset::from_set(sq.to_set()).count(x) by {
            lemma_from_set_count(sq.to_set(), x);
            lemma_from_set_count(init.to_set(), x);
        }
    }
}

/// The names of the tensors form a finite set holding every index.
proof fn lemma_names(ts: Seq<Seq<Seq<char>>>)
    ensures
        names(ts).finite(),
        forall|t: int, a: Seq<char>| 0 <= t < ts.len() && #[trigger] ts[t].contains(a) ==> names(ts).contains(a),
    decreases ts.len(),
{
    if ts.len() > 0 {
        lemma_names(ts.drop_last());
        assert forall|t: int, a: Seq<char>| 0 <= t < ts.len() && #[trigger] ts[t].contains(a) implies names(ts).contains(a) by {
            if t < ts.len() - 1 {
                assert(ts.drop_last()[t] == ts[t]);
            } else {
                assert(ts.last().to_set().contains(a));
            }
        }
    }
}

/// The queue entries as (degree, name).
pub open spec fn heap_seq(v: Seq<(usize, String)>) -> Seq<(int, Seq<char>)> {
    v.map_values(|x: (usize, String)| (x.0 as int, x.1@))
}

/// The queue as a multiset of (degree, name).
pub open spec fn heap_m(v: Seq<(usize, String)>) -> Multiset<(int, Seq<char>)> {
    heap_seq(v).to_multiset()
}

/// The starting queue.
fn initial_heap_chirho(tensors: &Vec<TensorNodeChirho>, adj: &Vec<(String, Vec<String>)>) -> (heap: Vec<(usize, String)>)
    requires
        adj_ok(adj@),
        rel(adj@) == graph0(index_sets(tensors@)),
    ensures
        heap_m(heap@) == heap0(index_sets(tensors@)),
        heap_seq(heap@).no_duplicates(),
        heap_seq(heap@).to_set() == Set::new(|x: (int, Seq<char>)| in_graph(graph0(index_sets(tensors@)), x.1)
            && !is_output(index_sets(tensors@), x.1) && x.0 == nbrs(graph0(index_sets(tensors@)), x.1).len()),
{
    let ghost ts = index_sets(tensors@);
    let ghost g = rel(adj@);
    let mut heap: Vec<(usize, String)> = Vec::new();
    let mut i: usize = 0;
    while i < adj.len()
        invariant
            i <= adj.len(),
            adj_ok(adj@),
            ts == index_sets(tensors@),
            g == rel(adj@),
            g == graph0(ts),
            heap_seq(heap@).no_duplicates(),
            forall|x: (int, Seq<char>)| #[trigger] heap_seq(heap@).contains(x)
                == (exists|t: int| 0 <= t < i && #[trigger] adj@[t].0@ == x.1 && !is_output(ts, x.1) && x.0 == adj@[t].1.len()),
        decreases adj.len() - i,
    {
        let out = is_output_chirho(tensors, &adj[i].0);
        if !out {
            let ghost hv0 = heap_seq(heap@);
            let e = (adj[i].1.len(), adj[i].0.clone());
            heap.push(e);
            proof {
                let hv = heap_seq(heap@);
                assert(hv =~= hv0.push((e.0 as int, e.1@)));
                assert(!hv0.contains((e.0 as int, e.1@))) by {
                    if hv0.contains((e.0 as int, e.1@)) {
                        let t = choose|t: int| 0 <= t < i && #[trigger] adj@[t].0@ == e.1@ && !is_output(ts, e.1@) && e.0 as int == adj@[t].1.len();
                        assert(adj@[t].0@ != adj@[i as int].0@);
                    }
                }
                assert forall|x: (int, Seq<char>)| #[trigger] hv.contains(x)
                    == (exists|t: int| 0 <= t < i + 1 && #[trigger] adj@[t].0@ == x.1 && !is_output(ts, x.1) && x.0 == adj@[t].1.len()) by {
                    if hv.contains(x) && x != (e.0 as int, e.1@) {
                        assert(hv0.contains(x));
                    }
                    if exists|t: int| 0 <= t < i + 1 && #[trigger] adj@[t].0@ == x.1 && !is_output(ts, x.1) && x.0 == adj@[t].1.len() {
                        let t = choose|t: int| 0 <= t < i + 1 && #[trigger] adj@[t].0@ == x.1 && !is_output(ts, x.1) && x.0 == adj@[t].1.len();
                        if t < i {
                            assert(hv0.contains(x));
                            assert(hv[hv0.index_of(x)] == x);
                        } else {
                            assert(hv[hv0.len() as int] == x);
                        }
                    }
                }
            }
        } else {
            proof {
                let hv = heap_seq(heap@);
                assert forall|x: (int, Seq<char>)| #[trigger] hv.contains(x)
                    == (exists|t: int| 0 <= t < i + 1 && #[trigger] adj@[t].0@ == x.1 && !is_output(ts, x.1) && x.0 == adj@[t].1.len()) by {
                    if exists|t: int| 0 <= t < i + 1 && #[trigger] adj@[t].0@ == x.1 && !is_output(ts, x.1) && x.0 == adj@[t].1.len() {
                        let t = choose|t: int| 0 <= t < i + 1 && #[trigger] adj@[t].0@ == x.1 && !is_output(ts, x.1) && x.0 == adj@[t].1.len();
                        assert(t < i);
                    }
                }
            }
        }
        i = i + 1;
    }
    proof {
        let hv = heap_seq(heap@);
        let st = Set::new(|x: (int, Seq<char>)| in_graph(graph0(ts), x.1) && !is_output(ts, x.1) && x.0 == nbrs(graph0(ts), x.1).len());
        assert forall|x: (int, Seq<char>)| #[trigger] hv.to_set().contains(x) == st.contains(x) by {
            if hv.contains(x) {
                let t = choose|t: int| 0 <= t < adj.len() && #[trigger] adj@[t].0@ == x.1 && !is_output(ts, x.1) && x.0 == adj@[t].1.len();
                lemma_key_nbrs(adj@, t);
                let l = strs(adj@[t].1@);
                assert(g.contains((x.1, l[0])));
                l.unique_seq_to_set();
            }
            if st.contains(x) {
                let b = choose|b: Seq<char>| #[trigger] g.contains((x.1, b));
                let t = choose|t: int| 0 <= t < adj@.len() && #[trigger] adj@[t].0@ == x.1 && strs(adj@[t].1@).contains(b);
                lemma_key_nbrs(adj@, t);
                strs(adj@[t].1@).unique_seq_to_set();
            }
        }
        assert(hv.to_set() =~= st);
        lemma_unique_multiset(hv);
    }
    heap
}

/// The list at a key holds exactly the key's neighbours.
proof fn lemma_key_nbrs(adj: Seq<(String, Vec<String>)>, t: int)
    requires
        adj_ok(adj),
        0 <= t < adj.len(),
    ensures
        strs(adj[t].1@).to_set() == nbrs(rel(adj), adj[t].0@),
{
    assert forall|b: Seq<char>| #[trigger] strs(adj[t].1@).to_set().contains(b) == nbrs(rel(adj), adj[t].0@).contains(b) by {
        if nbrs(rel(adj), adj[t].0@).contains(b) {
            let x = choose|x: int| 0 <= x < adj.len() && #[trigger] adj[x].0@ == adj[t].0@ && strs(adj[x].1@).contains(b);
            if x < t {
                assert(adj[x].0@ != adj[t].0@);
            } else if x > t {
                assert(adj[t].0@ != adj[x].0@);
            }
        }
        if strs(adj[t].1@).to_set().contains(b) {
            assert(rel(adj).contains((adj[t].0@, b)));
        }
    }
    assert(strs(adj[t].1@).to_set() =~= nbrs(rel(adj), adj[t].0@));
}

/// The queue order is total.
proof fn lemma_entry_total(x: (int, Seq<char>), y: (int, Seq<char>))
    ensures
        entry_le(x, y) || entry_le(y, x),
{
    lemma_text_total(x.1, y.1);
}

/// The queue order is transitive.
proof fn lemma_entry_trans(x: (int, Seq<char>), y: (int, Seq<char>), z: (int, Seq<char>))
    requires
        entry_le(x, y),
        entry_le(y, z),
    ensures
        entry_le(x, z),
{
    if x.0 == y.0 && y.0 == z.0 {
        lemma_text_trans(x.1, y.1, z.1);
    }
}

/// Position of a smallest queue entry.
fn min_index_chirho(heap: &Vec<(usize, String)>) -> (r: usize)
    requires
        heap.len() > 0,
    ensures
        r < heap.len(),
        forall|k: int| 0 <= k < heap.len() ==> entry_le(heap_seq(heap@)[r as int], #[trigger] heap_seq(heap@)[k]),
{
    let ghost hs = heap_seq(heap@);
    let mut best: usize = 0;
    let mut i: usize = 1;
    proof {
        lemma_entry_total(hs[0], hs[0]);
    }
    while i < heap.len()
        invariant
            hs == heap_seq(heap@),
            1 <= i <= heap.len(),
            best < i,
            forall|k: int| 0 <= k < i ==> entry_le(hs[best as int], #[trigger] hs[k]),
        decreases heap.len() - i,
    {
        if !entry_le_chirho(&heap[best], &heap[i]) {
            proof {
                lemma_entry_total(hs[best as int], hs[i as int]);
                assert forall|k: int| 0 <= k < i + 1 implies entry_le(hs[i as int], #[trigger] hs[k]) by {
                    if k < i {
                        lemma_entry_trans(hs[i as int], hs[best as int], hs[k]);
                    } else {
                        lemma_entry_total(hs[k], hs[k]);
                    }
                }
            }
            best = i;
        }
        i = i + 1;
    }
    best
}

/// Join the entries of `act` pairwise.
fn fill_chirho(adj: &mut Vec<(String, Vec<String>)>, act: &Vec<String>)
    requires
        adj_ok(old(adj)@),
    ensures
        adj_ok(final(adj)@),
        rel(final(adj)@) == fill(rel(old(adj)@), strs(act@).to_set()),
{
    let ghost g = rel(adj@);
    let ghost av = strs(act@);
    let mut x: usize = 0;
    proof {
        assert(rel(adj@) =~= g.union(joined(av, 0, 0)));
    }
    while x < act.len()
        invariant
            av == strs(act@),
            x <= act.len(),
            adj_ok(adj@),
            rel(adj@) == g.union(joined(av, x as int, 0)),
        decreases act.len() - x,
    {
        let mut y: usize = 0;
        while y < act.len()
            invariant
                av == strs(act@),
                x < act.len(),
                y <= act.len(),
                adj_ok(adj@),
                rel(adj@) == g.union(joined(av, x as int, y as int)),
            decreases act.len() - y,
        {
            let same = act[x] == act[y];
            if !same {
                add_edge_chirho(adj, &act[x], &act[y]);
            }
            proof {
                let p0 = (av[x as int], av[y as int]);
                assert forall|p: (Seq<char>, Seq<char>)| #[trigger] joined(av, x as int, y + 1).contains(p)
                    == (joined(av, x as int, y as int).contains(p) || (p == p0 && p0.0 != p0.1)) by {
                    if joined(av, x as int, y + 1).contains(p) && !joined(av, x as int, y as int).contains(p) {
                        let (a, b) = choose|a: int, b: int| 0 <= a < av.len() && 0 <= b < av.len()
                            && (a < x || (a == x && b < y + 1)) && #[trigger] av[a] == p.0 && #[trigger] av[b] == p.1;
                        if a < x || b < y {
                            assert(joined(av, x as int, y as int).contains(p));
                        }
                    }
                    if joined(av, x as int, y as int).contains(p) {
                        let (a, b) = choose|a: int, b: int| 0 <= a < av.len() && 0 <= b < av.len()
                            && (a < x || (a == x && b < y)) && #[trigger] av[a] == p.0 && #[trigger] av[b] == p.1;
                        assert(av[a] == p.0 && av[b] == p.1);
                    }
                    if p == p0 && p0.0 != p0.1 {
                        assert(av[x as int] == p.0 && av[y as int] == p.1);
                    }
                }
                assert(rel(adj@) =~= g.union(joined(av, x as int, y + 1)));
            }
            y = y + 1;
        }
        proof {
            assert forall|p: (Seq<char>, Seq<char>)| #[trigger] joined(av, x as int, act.len() as int).contains(p)
                == joined(av, x + 1, 0).contains(p) by {
                if joined(av, x + 1, 0).contains(p) {
                    let (a, b) = choose|a: int, b: int| 0 <= a < av.len() && 0 <= b < av.len()
                        && (a < x + 1 || (a == x + 1 && b < 0)) && #[trigger] av[a] == p.0 && #[trigger] av[b] == p.1;
                    assert(av[a] == p.0 && av[b] == p.1);
                }
                if joined(av, x as int, act.len() as int).contains(p) {
                    let (a, b) = choose|a: int, b: int| 0 <= a < av.len() && 0 <= b < av.len()
                        && (a < x || (a == x && b < act.len())) && #[trigger] av[a] == p.0 && #[trigger] av[b] == p.1;
                    assert(av[a] == p.0 && av[b] == p.1);
                }
            }
            assert(joined(av, x as int, act.len() as int) =~= joined(av, x + 1, 0));
        }
        x = x + 1;
    }
    proof {
        assert forall|p: (Seq<char>, Seq<char>)| #[trigger] joined(av, act.len() as int, 0).contains(p)
            == (av.to_set().contains(p.0) && av.to_set().contains(p.1) && p.0 != p.1) by {
            if av.to_set().contains(p.0) && av.to_set().contains(p.1) && p.0 != p.1 {
                let a = choose|a: int| 0 <= a < av.len() && av[a] == p.0;
                let b = choose|b: int| 0 <= b < av.len() && av[b] == p.1;
                assert(av[a] == p.0 && av[b] == p.1);
            }
            if joined(av, act.len() as int, 0).contains(p) {
                let (a, b) = choose|a: int, b: int| 0 <= a < av.len() && 0 <= b < av.len()
                    && (a < act.len() || (a == act.len() && b < 0)) && #[trigger] av[a] == p.0 && #[trigger] av[b] == p.1;
                assert(av.contains(p.0) && av.contains(p.1));
            }
        }
        assert(rel(adj@) =~= fill(g, av.to_set()));
    }
}

/// The pairs of different entries of `av` joined so far: rows `0..x`, and
/// the first `y` columns of row `x`.
pub open spec fn joined(av: Seq<Seq<char>>, x: int, y: int) -> Set<(Seq<char>, Seq<char>)> {
    Set::new(|p: (Seq<char>, Seq<char>)| p.0 != p.1 && exists|a: int, b: int| 0 <= a < av.len() && 0 <= b < av.len()
        && (a < x || (a == x && b < y)) && #[trigger] av[a] == p.0 && #[trigger] av[b] == p.1)
}

/// Min-degree elimination order of the indices that are not outputs: take
/// the smallest queued (degree, name); unless already eliminated, eliminate
/// it, join its remaining neighbours pairwise and queue each of them that is
/// not an output with its new degree.
pub fn min_degree_order_chirho(network_chirho: &TensorNetworkChirho) -> (r: Vec<String>)
    ensures
        strs(r@) == md_order(index_sets(network_chirho.tensors_chirho@)),
        strs(r@).no_duplicates(),
        forall|k: int| 0 <= k < r@.len() ==> !is_output(index_sets(network_chirho.tensors_chirho@), #[trigger] strs(r@)[k])
            && names(index_sets(network_chirho.tensors_chirho@)).contains(strs(r@)[k]),
        forall|a: Seq<char>|
            #![trigger in_graph(graph0(index_sets(network_chirho.tensors_chirho@)), a)]
            in_graph(graph0(index_sets(network_chirho.tensors_chirho@)), a) && !is_output(index_sets(network_chirho.tensors_chirho@), a)
                ==> strs(r@).contains(a),
{
    let tensors = &network_chirho.tensors_chirho;
    let ghost ts = index_sets(tensors@);
    let mut adj = build_graph_chirho(tensors);
    let mut heap = initial_heap_chirho(tensors, &adj);
    let mut elim: Vec<String> = Vec::new();
    let mut order: Vec<String> = Vec::new();
    proof {
        lemma_names(ts);
        let st = Set::new(|x: (int, Seq<char>)| in_graph(graph0(ts), x.1) && !is_output(ts, x.1) && x.0 == nbrs(graph0(ts), x.1).len());
        assert(st =~= heap_seq(heap@).to_set());
        assert forall|x: (int, Seq<char>)| #[trigger] heap_m(heap@).contains(x) implies names(ts).contains(x.1)
            && !is_output(ts, x.1) by {
            vstd::seq_lib::to_multiset_contains(heap_seq(heap@), x);
            assert(st.contains(x));
            let b = choose|b: Seq<char>| #[trigger] graph0(ts).contains((x.1, b));
            let t = choose|t: int| 0 <= t < ts.len() && #[trigger] ts[t].contains(x.1) && ts[t].contains(b);
        }
        assert forall|p: (Seq<char>, Seq<char>)| #[trigger] rel(adj@).contains(p) implies names(ts).contains(p.0) && names(ts).contains(p.1) by {
            assert(graph0(ts).contains(p));
            let t = choose|t: int| 0 <= t < ts.len() && #[trigger] ts[t].contains(p.0) && ts[t].contains(p.1);
        }
        assert(strs(elim@).to_set() =~= Set::<Seq<char>>::empty());
        assert(strs(order@) =~= Seq::<Seq<char>>::empty());
        assert(strs(elim@) =~= Seq::<Seq<char>>::empty());
        assert forall|a: Seq<char>| #![trigger in_graph(graph0(ts), a)] in_graph(graph0(ts), a) && !is_output(ts, a) implies strs(elim@).to_set().contains(a)
            || exists|x: (int, Seq<char>)| #[trigger] heap_m(heap@).contains(x) && x.1 == a by {
            let x = (nbrs(graph0(ts), a).len() as int, a);
            assert(st.contains(x));
            assert(heap_seq(heap@).to_set().contains(x));
            assert(heap_seq(heap@).contains(x));
            vstd::seq_lib::to_multiset_contains(heap_seq(heap@), x);
            assert(heap_m(heap@).contains(x) && x.1 == a);
        }
    }
    while heap.len() > 0
        invariant
            ts == index_sets(tensors@),
            names(ts).finite(),
            adj_ok(adj@),
            strs(elim@).no_duplicates(),
            strs(order@) == strs(elim@),
            forall|x: (int, Seq<char>)| #[trigger] heap_m(heap@).contains(x) ==> !is_output(ts, x.1),
            forall|k: int| 0 <= k < order@.len() ==> !is_output(ts, #[trigger] strs(order@)[k]) && names(ts).contains(strs(order@)[k]),
            md_inv(ts, rel(adj@), heap_m(heap@)),
            md_run(ts, rel(adj@), heap_m(heap@), strs(elim@).to_set(), strs(order@)) == md_order(ts),
            forall|a: Seq<char>| #![trigger in_graph(graph0(ts), a)] in_graph(graph0(ts), a) && !is_output(ts, a) ==> strs(elim@).to_set().contains(a)
                || exists|x: (int, Seq<char>)| #[trigger] heap_m(heap@).contains(x) && x.1 == a,
        decreases names(ts).difference(strs(elim@).to_set()).len(), heap.len(),
    {
        let ghost g = rel(adj@);
        let ghost h = heap_m(heap@);
        let ghost e = strs(elim@).to_set();
        let ghost o = strs(order@);
        let i = min_index_chirho(&heap);
        let ghost m = heap_seq(heap@)[i as int];
        proof {
            vstd::seq_lib::to_multiset_len(heap_seq(heap@));
            vstd::seq_lib::to_multiset_contains(heap_seq(heap@), m);
            assert forall|x: (int, Seq<char>)| #[trigger] h.contains(x) implies entry_le(m, x) by {
                vstd::seq_lib::to_multiset_contains(heap_seq(heap@), x);
                let k = heap_seq(heap@).index_of(x);
            }
            lemma_min_exists(h);
            lemma_min_unique(h, m, heap_min(h));
        }
        let ghost hs0 = heap_seq(heap@);
        let entry = heap.remove(i);
        proof {
            assert(heap_seq(heap@) =~= hs0.remove(i as int));
            vstd::seq_lib::to_multiset_remove(hs0, i as int);
            assert(heap_m(heap@) == h.remove(m));
            vstd::seq_lib::to_multiset_len(hs0);
            vstd::seq_lib::to_multiset_len(heap_seq(heap@));
        }
        let dead = contains_text_chirho(&elim, &entry.1);
        if !dead {
            let v = entry.1;
            let ghost e1 = e.insert(v@);
            let ghost act = nbrs(g, v@).difference(e1);
            let ghost g1 = fill(g, act);
            let ghost ev0 = strs(elim@);
            let ghost ov0 = strs(order@);
            order.push(v.clone());
            elim.push(v.clone());
            proof {
                assert(strs(elim@) =~= ev0.push(v@));
                assert(strs(order@) =~= ov0.push(v@));
                ev0.lemma_push_to_set_commute(v@);
                assert(strs(elim@).to_set() == e1);
            }
            let nl = nbr_list_chirho(&adj, &v);
            let mut active: Vec<String> = Vec::new();
            let mut t: usize = 0;
            proof {
                assert(strs(nl@).take(0).to_set().difference(e1) =~= Set::<Seq<char>>::empty());
                assert(strs(active@).to_set() =~= Set::<Seq<char>>::empty());
            }
            while t < nl.len()
                invariant
                    t <= nl.len(),
                    strs(nl@).no_duplicates(),
                    strs(elim@).to_set() == e1,
                    strs(active@).no_duplicates(),
                    strs(active@).to_set() == strs(nl@).take(t as int).to_set().difference(e1),
                decreases nl.len() - t,
            {
                let ghost x = strs(nl@)[t as int];
                proof {
                    assert(strs(nl@).take(t + 1) =~= strs(nl@).take(t as int).push(x));
                    strs(nl@).take(t as int).lemma_push_to_set_commute(x);
                    assert(!strs(nl@).take(t as int).to_set().contains(x)) by {
                        if strs(nl@).take(t as int).contains(x) {
                            let k = choose|k: int| 0 <= k < t && strs(nl@).take(t as int)[k] == x;
                            assert(strs(nl@)[k] == strs(nl@)[t as int]);
                        }
                    }
                }
                if !contains_text_chirho(&elim, &nl[t]) {
                    let ghost av0 = strs(active@);
                    active.push(nl[t].clone());
                    proof {
                        assert(strs(active@) =~= av0.push(x));
                        av0.lemma_push_to_set_commute(x);
                        assert(!av0.contains(x)) by {
                            if av0.contains(x) {
                                assert(av0.to_set().contains(x));
                            }
                        }
                        assert(strs(active@).to_set() =~= strs(nl@).take(t + 1).to_set().difference(e1));
                    }
                } else {
                    proof {
                        assert(strs(active@).to_set() =~= strs(nl@).take(t + 1).to_set().difference(e1));
                    }
                }
                t = t + 1;
            }
            proof {
                assert(strs(nl@).take(nl.len() as int) =~= strs(nl@));
                assert(strs(active@).to_set() == act);
            }
            fill_chirho(&mut adj, &active);
            let ghost base = heap_seq(heap@);
            let ghost mut pushed: Seq<(int, Seq<char>)> = Seq::empty();
            let mut u: usize = 0;
            while u < active.len()
                invariant
                    ts == index_sets(tensors@),
                    u <= active.len(),
                    adj_ok(adj@),
                    rel(adj@) == g1,
                    strs(elim@).to_set() == e1,
                    strs(active@).no_duplicates(),
                    heap_seq(heap@) == base + pushed,
                    pushed.no_duplicates(),
                    forall|x: (int, Seq<char>)| #[trigger] pushed.contains(x) == (strs(active@).take(u as int).contains(x.1)
                        && !is_output(ts, x.1) && x.0 == live_degree(g1, x.1, e1)),
                decreases active.len() - u,
            {
                let n = &active[u];
                let ghost x1 = strs(active@)[u as int];
                proof {
                    assert(strs(active@).take(u + 1) =~= strs(active@).take(u as int).push(x1));
                }
                if !is_output_chirho(tensors, n) {
                    let nl2 = nbr_list_chirho(&adj, n);
                    let d = count_live_chirho(&nl2, &elim);
                    let ghost hv0 = heap_seq(heap@);
                    heap.push((d, n.clone()));
                    proof {
                        let y = (d as int, x1);
                        assert(d as int == live_degree(g1, x1, e1));
                        assert(!is_output(ts, x1));
                        assert(heap_seq(heap@) =~= hv0.push(y));
                        assert(!pushed.contains(y)) by {
                            if pushed.contains(y) {
                                let k = choose|k: int| 0 <= k < u && strs(active@).take(u as int)[k] == x1;
                                assert(strs(active@)[k] == strs(active@)[u as int]);
                            }
                        }
                        let p0 = pushed;
                        pushed = pushed.push(y);
                        assert(heap_seq(heap@) =~= base + pushed);
                        assert forall|x: (int, Seq<char>)| #[trigger] pushed.contains(x) == (strs(active@).take(u + 1).contains(x.1)
                            && !is_output(ts, x.1) && x.0 == live_degree(g1, x.1, e1)) by {
                            if pushed.contains(x) {
                                if x != y {
                                    assert(p0.contains(x));
                                    let tk0 = strs(active@).take(u as int);
                                    let k = choose|k: int| 0 <= k < tk0.len() && #[trigger] tk0[k] == x.1;
                                    assert(strs(active@).take(u + 1)[k] == x.1);
                                } else {
                                    assert(strs(active@).take(u + 1)[u as int] == x1);
                                }
                            }
                            if strs(active@).take(u + 1).contains(x.1) && !is_output(ts, x.1) && x.0 == live_degree(g1, x.1, e1) {
                                if x.1 == x1 {
                                    assert(pushed[p0.len() as int] == y);
                                } else {
                                    let tk = strs(active@).take(u + 1);
                                    let k = choose|k: int| 0 <= k < tk.len() && #[trigger] tk[k] == x.1;
                                    assert(strs(active@).take(u as int)[k] == x.1);
                                    assert(p0.contains(x));
                                    let j = p0.index_of(x);
                                    assert(pushed[j] == x);
                                }
                            }
                        }
                    }
                } else {
                    proof {
                        assert forall|x: (int, Seq<char>)| #[trigger] pushed.contains(x) == (strs(active@).take(u + 1).contains(x.1)
                            && !is_output(ts, x.1) && x.0 == live_degree(g1, x.1, e1)) by {
                            if strs(active@).take(u + 1).contains(x.1) && !is_output(ts, x.1) && x.0 == live_degree(g1, x.1, e1) {
                                if x.1 != x1 {
                                    let tk = strs(active@).take(u + 1);
                                    let k = choose|k: int| 0 <= k < tk.len() && #[trigger] tk[k] == x.1;
                                    assert(strs(active@).take(u as int)[k] == x.1);
                                }
                            }
                        }
                    }
                }
                u = u + 1;
            }
            proof {
                assert(strs(active@).take(active.len() as int) =~= strs(active@));
                let st = Set::new(|x: (int, Seq<char>)| act.contains(x.1) && !is_output(ts, x.1) && x.0 == live_degree(g1, x.1, e1));
                assert(pushed.to_set() =~= st);
                lemma_unique_multiset(pushed);
                vstd::seq_lib::lemma_multiset_commutative(base, pushed);
                assert(heap_m(heap@) =~= h.remove(m).add(pushes(ts, g1, act, e1)));
                // The state still names only indices of the tensors.
                assert forall|x: (int, Seq<char>)| #[trigger] heap_m(heap@).contains(x) implies names(ts).contains(x.1)
                    && !is_output(ts, x.1) by {
                    if h.remove(m).contains(x) {
                        assert(h.contains(x));
                    } else {
                        lemma_from_set_count(st, x);
                        assert(act.contains(x.1));
                        assert(g.contains((v@, x.1)));
                    }
                }
                assert(h.contains(m));
                assert(strs(order@) =~= ov0.push(v@));
                assert forall|p: (Seq<char>, Seq<char>)| #[trigger] g1.contains(p) implies names(ts).contains(p.0) && names(ts).contains(p.1) by {
                    if !g.contains(p) {
                        assert(g.contains((v@, p.0)) && g.contains((v@, p.1)));
                    }
                }
                assert(names(ts).difference(e1) =~= names(ts).difference(e).remove(v@));
                assert(names(ts).contains(v@));
                assert(md_run(ts, g, h, e, o) == md_run(ts, g1, h.remove(m).add(pushes(ts, g1, act, e1)), e1, o.push(v@)));
                assert forall|a: Seq<char>| #![trigger in_graph(graph0(ts), a)] in_graph(graph0(ts), a) && !is_output(ts, a) implies strs(elim@).to_set().contains(a)
                    || exists|x: (int, Seq<char>)| #[trigger] heap_m(heap@).contains(x) && x.1 == a by {
                    if !e.contains(a) && a != v@ {
                        let x = choose|x: (int, Seq<char>)| #[trigger] h.contains(x) && x.1 == a;
                        assert(x != m);
                        assert(h.remove(m).contains(x));
                        assert(heap_m(heap@).contains(x));
                    }
                }
            }
        } else {
            proof {
                assert(e.contains(entry.1@));
                assert forall|x: (int, Seq<char>)| #[trigger] heap_m(heap@).contains(x) implies names(ts).contains(x.1)
                    && !is_output(ts, x.1) by {
                    assert(h.contains(x));
                }
                assert(md_run(ts, g, h, e, o) == md_run(ts, g, h.remove(m), e, o));
                assert forall|a: Seq<char>| #![trigger in_graph(graph0(ts), a)] in_graph(graph0(ts), a) && !is_output(ts, a) implies strs(elim@).to_set().contains(a)
                    || exists|x: (int, Seq<char>)| #[trigger] heap_m(heap@).contains(x) && x.1 == a by {
                    if !e.contains(a) {
                        let x = choose|x: (int, Seq<char>)| #[trigger] h.contains(x) && x.1 == a;
                        assert(x != m);
                        assert(h.remove(m).contains(x));
                    }
                }
            }
        }
    }
    proof {
        assert(heap_m(heap@).len() == 0) by {
            vstd::seq_lib::to_multiset_len(heap_seq(heap@));
        }
        assert forall|a: Seq<char>| #![trigger in_graph(graph0(ts), a)] in_graph(graph0(ts), a) && !is_output(ts, a) implies strs(order@).contains(a) by {
            if !strs(elim@).to_set().contains(a) {
                let x = choose|x: (int, Seq<char>)| #[trigger] heap_m(heap@).contains(x) && x.1 == a;
                assert(heap_m(heap@).count(x) > 0);
            }
        }
    }
    order
}

} // verus!
