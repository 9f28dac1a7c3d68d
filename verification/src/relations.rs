//! Relations kept as sparse Boolean tensors: `appendo` as triples
//! `(l, s, out)`, `membero` as pairs `(element, list)`.

use vstd::prelude::*;
use crate::bitmatrix::{BitTensor3Chirho, coord};

verus! {

/// `appendo`: the triples `(l, s, out)` with `l ++ s = out`.
#[derive(Debug)]
pub struct AppendoChirho {
    /// The known triples.
    pub tensor_chirho: BitTensor3Chirho,
}

impl AppendoChirho {
    /// No triple.
    pub fn new() -> (r: Self)
        ensures
            r.tensor_chirho.ones() == Set::<(u32, u32, u32)>::empty(),
    {
        Self { tensor_chirho: BitTensor3Chirho::new() }
    }

    /// Record a triple.
    pub fn add_triple_chirho(&mut self, l_chirho: u32, s_chirho: u32, out_chirho: u32)
        ensures
            final(self).tensor_chirho.ones() == old(self).tensor_chirho.ones().insert((l_chirho, s_chirho, out_chirho)),
    {
        self.tensor_chirho.set_chirho(l_chirho, s_chirho, out_chirho);
    }

    /// The `out` values recorded with `l` and `s`, each once.
    pub fn forward_chirho(&self, l_chirho: u32, s_chirho: u32) -> (r: Vec<u32>)
        ensures
            r@.no_duplicates(),
            forall|v: u32| #[trigger] r@.contains(v) == self.tensor_chirho.ones().contains((l_chirho, s_chirho, v)),
    {
        let r = self.tensor_chirho.query_chirho([(0, l_chirho), (1, s_chirho)]);
        proof {
            assert forall|v: u32| #[trigger] r@.contains(v) == self.tensor_chirho.ones().contains((l_chirho, s_chirho, v)) by {
                if self.tensor_chirho.ones().contains((l_chirho, s_chirho, v)) {
                    let t = (l_chirho, s_chirho, v);
                    assert(coord(t, 0) == l_chirho && coord(t, 1) == s_chirho && coord(t, 2) == v);
                }
            }
        }
        r
    }

    /// The `(l, s)` pairs recorded with `out`, in the tensor's order.
    pub fn backward_chirho(&self, out_chirho: u32) -> (r: Vec<(u32, u32)>)
        ensures
            r@.no_duplicates(),
            forall|p: (u32, u32)| #[trigger] r@.contains(p) == self.tensor_chirho.ones().contains((p.0, p.1, out_chirho)),
    {
        let all = self.tensor_chirho.iter_chirho();
        let mut results: Vec<(u32, u32)> = Vec::new();
        let mut i: usize = 0;
        while i < all.len()
            invariant
                i <= all.len(),
                all@.no_duplicates(),
                results@.no_duplicates(),
                forall|p: (u32, u32)| #[trigger] results@.contains(p) == all@.take(i as int).contains((p.0, p.1, out_chirho)),
            decreases all.len() - i,
        {
            let (l, s, o) = all[i];
            proof {
                assert(all@.take(i + 1) =~= all@.take(i as int).push(all@[i as int]));
            }
            if o == out_chirho {
                proof {
                    assert(!results@.contains((l, s))) by {
                        if results@.contains((l, s)) {
                            let tk0 = all@.take(i as int);
                            let k = choose|k: int| 0 <= k < tk0.len() && #[trigger] tk0[k] == (l, s, out_chirho);
                            assert(all@[k] == all@[i as int]);
                        }
                    }
                }
                let ghost r0 = results@;
                results.push((l, s));
                proof {
                    assert forall|p: (u32, u32)| #[trigger] results@.contains(p) == all@.take(i + 1).contains((p.0, p.1, out_chirho)) by {
                        if results@.contains(p) && p != (l, s) {
                            assert(r0.contains(p));
                            let tk0 = all@.take(i as int);
                            let k = choose|k: int| 0 <= k < tk0.len() && #[trigger] tk0[k] == (p.0, p.1, out_chirho);
                            assert(all@.take(i + 1)[k] == (p.0, p.1, out_chirho));
                        }
                        if p == (l, s) {
                            assert(all@.take(i + 1)[i as int] == (p.0, p.1, out_chirho));
                            assert(results@[r0.len() as int] == p);
                        }
                        if all@.take(i + 1).contains((p.0, p.1, out_chirho)) && p != (l, s) {
                            let tk1 = all@.take(i + 1);
                            let k = choose|k: int| 0 <= k < tk1.len() && #[trigger] tk1[k] == (p.0, p.1, out_chirho);
                            assert(all@.take(i as int)[k] == (p.0, p.1, out_chirho));
                            assert(r0.contains(p));
                            assert(results@[r0.index_of(p)] == p);
                        }
                    }
                }
            } else {
                proof {
                    assert forall|p: (u32, u32)| #[trigger] results@.contains(p) == all@.take(i + 1).contains((p.0, p.1, out_chirho)) by {
                        if results@.contains(p) {
                            let tk0 = all@.take(i as int);
                            let k = choose|k: int| 0 <= k < tk0.len() && #[trigger] tk0[k] == (p.0, p.1, out_chirho);
                            assert(all@.take(i + 1)[k] == (p.0, p.1, out_chirho));
                        }
                        if all@.take(i + 1).contains((p.0, p.1, out_chirho)) {
                            let tk1 = all@.take(i + 1);
                            let k = choose|k: int| 0 <= k < tk1.len() && #[trigger] tk1[k] == (p.0, p.1, out_chirho);
                            assert(all@.take(i as int)[k] == (p.0, p.1, out_chirho));
                        }
                    }
                }
            }
            i = i + 1;
        }
        proof {
            assert(all@.take(all.len() as int) =~= all@);
            assert forall|p: (u32, u32)| #[trigger] results@.contains(p) == self.tensor_chirho.ones().contains((p.0, p.1, out_chirho)) by {
                assert(all@.to_set().contains((p.0, p.1, out_chirho)) == all@.contains((p.0, p.1, out_chirho)));
            }
        }
        results
    }
}

impl Default for AppendoChirho {
    fn default() -> (r: Self)
        ensures
            r.tensor_chirho.ones() == Set::<(u32, u32, u32)>::empty(),
    {
        Self::new()
    }
}

/// `membero`: the pairs `(element, list)` with the element in the list.
#[derive(Debug)]
pub struct MemberoChirho {
    entries_chirho: Vec<(u32, u32)>,
}

impl MemberoChirho {
    /// The recorded pairs.
    pub closed spec fn pairs(self) -> Set<(u32, u32)> {
        self.entries_chirho@.to_set()
    }

    /// No pair.
    pub fn new() -> (r: Self)
        ensures
            r.pairs() == Set::<(u32, u32)>::empty(),
    {
        let r = Self { entries_chirho: Vec::new() };
        assert(r.pairs() =~= Set::<(u32, u32)>::empty());
        r
    }

    /// Record that the element is in the list.
    pub fn add_pair_chirho(&mut self, elem_chirho: u32, list_chirho: u32)
        ensures
            final(self).pairs() == old(self).pairs().insert((elem_chirho, list_chirho)),
    {
        let mut i: usize = 0;
        while i < self.entries_chirho.len()
            invariant
                i <= self.entries_chirho.len(),
                self.entries_chirho@ == old(self).entries_chirho@,
                forall|t: int| 0 <= t < i ==> #[trigger] self.entries_chirho@[t] != (elem_chirho, list_chirho),
            decreases self.entries_chirho.len() - i,
        {
            let (e, l) = self.entries_chirho[i];
            if e == elem_chirho && l == list_chirho {
                proof {
                    assert(self.entries_chirho@[i as int] == (elem_chirho, list_chirho));
                    assert(self.pairs() =~= old(self).pairs().insert((elem_chirho, list_chirho)));
                }
                return;
            }
            i = i + 1;
        }
        let ghost e0 = self.entries_chirho@;
        self.entries_chirho.push((elem_chirho, list_chirho));
        proof {
            e0.lemma_push_to_set_commute((elem_chirho, list_chirho));
            assert(self.pairs() =~= old(self).pairs().insert((elem_chirho, list_chirho)));
        }
    }

    /// The lists recorded as holding the element, each once.
    pub fn lists_containing_chirho(&self, elem_chirho: u32) -> (r: Vec<u32>)
        ensures
            r@.no_duplicates(),
            forall|l: u32| #[trigger] r@.contains(l) == self.pairs().contains((elem_chirho, l)),
    {
        let mut out: Vec<u32> = Vec::new();
        let mut i: usize = 0;
        while i < self.entries_chirho.len()
            invariant
                i <= self.entries_chirho.len(),
                out@.no_duplicates(),
                forall|l: u32| #[trigger] out@.contains(l) == self.entries_chirho@.take(i as int).contains((elem_chirho, l)),
            decreases self.entries_chirho.len() - i,
        {
            let (e, l) = self.entries_chirho[i];
            let ghost tk = self.entries_chirho@.take(i as int);
            let ghost tk1 = self.entries_chirho@.take(i + 1);
            proof {
                assert(tk1 =~= tk.push((e, l)));
            }
            if e == elem_chirho && !contains_u32_chirho(&out, l) {
                let ghost o0 = out@;
                out.push(l);
                proof {
                    assert forall|x: u32| #[trigger] out@.contains(x) == tk1.contains((elem_chirho, x)) by {
                        if out@.contains(x) && x != l {
                            assert(o0.contains(x));
                            let k = choose|k: int| 0 <= k < tk.len() && tk[k] == (elem_chirho, x);
                            assert(tk1[k] == (elem_chirho, x));
                        }
                        if x == l {
                            assert(tk1[i as int] == (elem_chirho, x));
                            assert(out@[o0.len() as int] == x);
                        }
                        if tk1.contains((elem_chirho, x)) && x != l {
                            let k = choose|k: int| 0 <= k < tk1.len() && tk1[k] == (elem_chirho, x);
                            assert(tk[k] == (elem_chirho, x));
                            assert(o0.contains(x));
                            assert(out@[o0.index_of(x)] == x);
                        }
                    }
                }
            } else {
                proof {
                    assert forall|x: u32| #[trigger] out@.contains(x) == tk1.contains((elem_chirho, x)) by {
                        if out@.contains(x) {
                            let k = choose|k: int| 0 <= k < tk.len() && tk[k] == (elem_chirho, x);
                            assert(tk1[k] == (elem_chirho, x));
                        }
                        if tk1.contains((elem_chirho, x)) {
                            let k = choose|k: int| 0 <= k < tk1.len() && tk1[k] == (elem_chirho, x);
                            if k < i {
                                assert(tk[k] == (elem_chirho, x));
                            }
                        }
                    }
                }
            }
            i = i + 1;
        }
        proof {
            assert(self.entries_chirho@.take(self.entries_chirho.len() as int) =~= self.entries_chirho@);
        }
        out
    }

    /// The elements recorded in the list, each once.
    pub fn elements_of_chirho(&self, list_chirho: u32) -> (r: Vec<u32>)
        ensures
            r@.no_duplicates(),
            forall|e: u32| #[trigger] r@.contains(e) == self.pairs().contains((e, list_chirho)),
    {
        let mut out: Vec<u32> = Vec::new();
        let mut i: usize = 0;
        while i < self.entries_chirho.len()
            invariant
                i <= self.entries_chirho.len(),
                out@.no_duplicates(),
                forall|x: u32| #[trigger] out@.contains(x) == self.entries_chirho@.take(i as int).contains((x, list_chirho)),
            decreases self.entries_chirho.len() - i,
        {
            let (e, l) = self.entries_chirho[i];
            let ghost tk = self.entries_chirho@.take(i as int);
            let ghost tk1 = self.entries_chirho@.take(i + 1);
            proof {
                assert(tk1 =~= tk.push((e, l)));
            }
            if l == list_chirho && !contains_u32_chirho(&out, e) {
                let ghost o0 = out@;
                out.push(e);
                proof {
                    assert forall|x: u32| #[trigger] out@.contains(x) == tk1.contains((x, list_chirho)) by {
                        if out@.contains(x) && x != e {
                            assert(o0.contains(x));
                            let k = choose|k: int| 0 <= k < tk.len() && tk[k] == (x, list_chirho);
                            assert(tk1[k] == (x, list_chirho));
                        }
                        if x == e {
                            assert(tk1[i as int] == (x, list_chirho));
                            assert(out@[o0.len() as int] == x);
                        }
                        if tk1.contains((x, list_chirho)) && x != e {
                            let k = choose|k: int| 0 <= k < tk1.len() && tk1[k] == (x, list_chirho);
                            assert(tk[k] == (x, list_chirho));
                            assert(o0.contains(x));
                            assert(out@[o0.index_of(x)] == x);
                        }
                    }
                }
            } else {
                proof {
                    assert forall|x: u32| #[trigger] out@.contains(x) == tk1.contains((x, list_chirho)) by {
                        if out@.contains(x) {
                            let k = choose|k: int| 0 <= k < tk.len() && tk[k] == (x, list_chirho);
                            assert(tk1[k] == (x, list_chirho));
                        }
                        if tk1.contains((x, list_chirho)) {
                            let k = choose|k: int| 0 <= k < tk1.len() && tk1[k] == (x, list_chirho);
                            if k < i {
                                assert(tk[k] == (x, list_chirho));
                            }
                        }
                    }
                }
            }
            i = i + 1;
        }
        proof {
            assert(self.entries_chirho@.take(self.entries_chirho.len() as int) =~= self.entries_chirho@);
        }
        out
    }
}

impl Default for MemberoChirho {
    fn default() -> (r: Self)
        ensures
            r.pairs() == Set::<(u32, u32)>::empty(),
    {
        Self::new()
    }
}

fn contains_u32_chirho(v: &Vec<u32>, x: u32) -> (r: bool)
    ensures
        r == v@.contains(x),
{
    let mut i: usize = 0;
    while i < v.len()
        invariant
            i <= v.len(),
            forall|t: int| 0 <= t < i ==> v@[t] != x,
        decreases v.len() - i,
    {
        if v[i] == x {
            return true;
        }
        i = i + 1;
    }
    false
}

} // verus!
