//! Sparse Boolean matrices and 3-tensors in coordinate form: only the
//! positions holding a one are listed, each once.

use vstd::prelude::*;
use std::collections::HashSet;

verus! {

broadcast use {vstd::seq_lib::lemma_seq_contains_after_push, vstd::std_specs::hash::group_hash_axioms};

/// `(r, c)` is listed in `v`.
pub open spec fn listed2(v: Seq<(u32, u32)>, r: u32, c: u32) -> bool {
    v.contains((r, c))
}

/// Sparse bit matrix: the positions `(row, col)` that hold a one, and the
/// dimensions, which always cover every listed position.
pub struct BitMatrixChirho {
    entries_chirho: Vec<(u32, u32)>,
    num_rows_chirho: u32,
    num_cols_chirho: u32,
}

impl BitMatrixChirho {
    #[verifier::type_invariant]
    spec fn inv(self) -> bool {
        &&& self.entries_chirho@.no_duplicates()
        &&& forall|k: int| 0 <= k < self.entries_chirho@.len() ==> (#[trigger] self.entries_chirho@[k]).0 < self.num_rows_chirho
            && self.entries_chirho@[k].1 < self.num_cols_chirho
    }

    /// Position `(r, c)` holds a one.
    pub closed spec fn has(self, r: u32, c: u32) -> bool {
        self.entries_chirho@.contains((r, c))
    }

    /// The set of positions holding a one.
    pub closed spec fn ones(self) -> Set<(u32, u32)> {
        self.entries_chirho@.to_set()
    }

    pub closed spec fn nrows(self) -> nat {
        self.num_rows_chirho as nat
    }

    pub closed spec fn ncols(self) -> nat {
        self.num_cols_chirho as nat
    }

    /// `ones` is the set of positions of `has`.
    pub proof fn lemma_ones(self)
        ensures
            forall|r: u32, c: u32| #[trigger] self.ones().contains((r, c)) == self.has(r, c),
            self.ones().finite(),
    {
        vstd::seq_lib::seq_to_set_is_finite(self.entries_chirho@);
    }

    /// An all-zero matrix of the given dimensions.
    pub fn new(rows_chirho: u32, cols_chirho: u32) -> (r: Self)
        ensures
            r.nrows() == rows_chirho && r.ncols() == cols_chirho,
            forall|i: u32, j: u32| !#[trigger] r.has(i, j),
    {
        Self { entries_chirho: Vec::new(), num_rows_chirho: rows_chirho, num_cols_chirho: cols_chirho }
    }

    fn find_chirho(&self, row_chirho: u32, col_chirho: u32) -> (r: Option<usize>)
        ensures
            match r {
                Some(k) => k < self.entries_chirho@.len() && self.entries_chirho@[k as int] == (row_chirho, col_chirho),
                None => !self.has(row_chirho, col_chirho),
            },
    {
        let mut i: usize = 0;
        while i < self.entries_chirho.len()
            invariant
                i <= self.entries_chirho.len(),
                forall|k: int| 0 <= k < i ==> #[trigger] self.entries_chirho@[k] != (row_chirho, col_chirho),
            decreases self.entries_chirho.len() - i,
        {
            let (a, b) = self.entries_chirho[i];
            if a == row_chirho && b == col_chirho {
                return Some(i);
            }
            i = i + 1;
        }
        None
    }

    /// Put a one at `(row, col)`, growing the dimensions to cover it.
    pub fn set_chirho(&mut self, row_chirho: u32, col_chirho: u32)
        requires
            row_chirho < u32::MAX,
            col_chirho < u32::MAX,
        ensures
            forall|i: u32, j: u32| #[trigger] final(self).has(i, j) == (old(self).has(i, j) || (i == row_chirho && j == col_chirho)),
            final(self).nrows() == if old(self).nrows() > row_chirho + 1 { old(self).nrows() as int } else { row_chirho + 1 },
            final(self).ncols() == if old(self).ncols() > col_chirho + 1 { old(self).ncols() as int } else { col_chirho + 1 },
    {
        proof {
            use_type_invariant(&*self);
        }
        let found = self.find_chirho(row_chirho, col_chirho);
        let nr = if self.num_rows_chirho > row_chirho + 1 { self.num_rows_chirho } else { row_chirho + 1 };
        let nc = if self.num_cols_chirho > col_chirho + 1 { self.num_cols_chirho } else { col_chirho + 1 };
        let mut entries = Vec::new();
        std::mem::swap(&mut entries, &mut self.entries_chirho);
        proof {
            assert(entries@ == old(self).entries_chirho@);
        }
        if found.is_none() {
            entries.push((row_chirho, col_chirho));
            proof {
                assert forall|i: int, j: int| 0 <= i < j < entries@.len() implies entries@[i] != entries@[j] by {
                    if j == entries@.len() - 1 {
                        assert(old(self).entries_chirho@.contains(entries@[i]));
                    }
                }
            }
        }
        *self = Self { entries_chirho: entries, num_rows_chirho: nr, num_cols_chirho: nc };
    }

    /// Does `(row, col)` hold a one?
    pub fn get_chirho(&self, row_chirho: u32, col_chirho: u32) -> (r: bool)
        ensures
            r == self.has(row_chirho, col_chirho),
    {
        self.find_chirho(row_chirho, col_chirho).is_some()
    }

    /// Put a zero at `(row, col)`; the dimensions stay.
    pub fn clear_chirho(&mut self, row_chirho: u32, col_chirho: u32)
        ensures
            forall|i: u32, j: u32| #[trigger] final(self).has(i, j) == (old(self).has(i, j) && !(i == row_chirho && j == col_chirho)),
            final(self).nrows() == old(self).nrows(),
            final(self).ncols() == old(self).ncols(),
    {
        proof {
            use_type_invariant(&*self);
        }
        match self.find_chirho(row_chirho, col_chirho) {
            None => {},
            Some(k) => {
                let nr = self.num_rows_chirho;
                let nc = self.num_cols_chirho;
                let mut entries = Vec::new();
        std::mem::swap(&mut entries, &mut self.entries_chirho);
                let ghost before = entries@;
                entries.remove(k);
                proof {
                    assert(entries@ == before.remove(k as int));
                    assert forall|i: u32, j: u32| #[trigger] entries@.contains((i, j)) == (before.contains((i, j)) && !(i == row_chirho && j == col_chirho)) by {
                        if before.contains((i, j)) && !(i == row_chirho && j == col_chirho) {
                            let t = choose|t: int| 0 <= t < before.len() && before[t] == (i, j);
                            if t < k {
                                assert(entries@[t] == (i, j));
                            } else {
                                assert(entries@[t - 1] == (i, j));
                            }
                        }
                        if entries@.contains((i, j)) {
                            let t = choose|t: int| 0 <= t < entries@.len() && entries@[t] == (i, j);
                            if t < k {
                                assert(before[t] == (i, j));
                            } else {
                                assert(before[t + 1] == (i, j));
                            }
                        }
                    }
                    assert forall|t: int| 0 <= t < entries@.len() implies (#[trigger] entries@[t]).0 < nr && entries@[t].1 < nc by {
                        if t < k {
                            assert(entries@[t] == before[t]);
                        } else {
                            assert(entries@[t] == before[t + 1]);
                        }
                    }
                }
                *self = Self { entries_chirho: entries, num_rows_chirho: nr, num_cols_chirho: nc };
            },
        }
    }

    /// The columns holding a one in row `row`, each once.
    pub fn row_chirho(&self, row_chirho: u32) -> (r: Vec<u32>)
        ensures
            r@.no_duplicates(),
            forall|c: u32| r@.contains(c) == #[trigger] self.has(row_chirho, c),
    {
        proof {
            use_type_invariant(self);
        }
        let mut out: Vec<u32> = Vec::new();
        let mut i: usize = 0;
        while i < self.entries_chirho.len()
            invariant
                i <= self.entries_chirho.len(),
                self.entries_chirho@.no_duplicates(),
                out@.no_duplicates(),
                forall|c: u32| out@.contains(c) == exists|k: int| 0 <= k < i && #[trigger] self.entries_chirho@[k] == (row_chirho, c),
            decreases self.entries_chirho.len() - i,
        {
            let (a, b) = self.entries_chirho[i];
            let ghost prev = out@;
            if a == row_chirho {
                proof {
                    if prev.contains(b) {
                        let k = choose|k: int| 0 <= k < i && #[trigger] self.entries_chirho@[k] == (row_chirho, b);
                        assert(self.entries_chirho@[k] == self.entries_chirho@[i as int]);
                    }
                }
                out.push(b);
            }
            proof {
                assert forall|c: u32| out@.contains(c) == exists|k: int| 0 <= k < i + 1 && #[trigger] self.entries_chirho@[k] == (row_chirho, c) by {
                    if exists|k: int| 0 <= k < i + 1 && #[trigger] self.entries_chirho@[k] == (row_chirho, c) {
                        let k = choose|k: int| 0 <= k < i + 1 && #[trigger] self.entries_chirho@[k] == (row_chirho, c);
                        if k < i {
                            assert(prev.contains(c));
                        }
                    }
                    if out@.contains(c) && !prev.contains(c) {
                        assert(self.entries_chirho@[i as int] == (row_chirho, c));
                    }
                }
            }
            i = i + 1;
        }
        proof {
            assert forall|c: u32| out@.contains(c) == #[trigger] self.has(row_chirho, c) by {
                if self.has(row_chirho, c) {
                    let k = choose|k: int| 0 <= k < self.entries_chirho.len() && self.entries_chirho@[k] == (row_chirho, c);
                    assert(self.entries_chirho@[k] == (row_chirho, c));
                }
            }
        }
        out
    }

    /// The rows holding a one in column `col`, each once.
    pub fn col_chirho(&self, col_chirho: u32) -> (r: Vec<u32>)
        ensures
            r@.no_duplicates(),
            forall|rr: u32| r@.contains(rr) == #[trigger] self.has(rr, col_chirho),
    {
        proof {
            use_type_invariant(self);
        }
        let mut out: Vec<u32> = Vec::new();
        let mut i: usize = 0;
        while i < self.entries_chirho.len()
            invariant
                i <= self.entries_chirho.len(),
                self.entries_chirho@.no_duplicates(),
                out@.no_duplicates(),
                forall|x: u32| out@.contains(x) == exists|k: int| 0 <= k < i && #[trigger] self.entries_chirho@[k] == (x, col_chirho),
            decreases self.entries_chirho.len() - i,
        {
            let (a, b) = self.entries_chirho[i];
            let ghost prev = out@;
            if b == col_chirho {
                proof {
                    if prev.contains(a) {
                        let k = choose|k: int| 0 <= k < i && #[trigger] self.entries_chirho@[k] == (a, col_chirho);
                        assert(self.entries_chirho@[k] == self.entries_chirho@[i as int]);
                    }
                }
                out.push(a);
            }
            proof {
                assert forall|x: u32| out@.contains(x) == exists|k: int| 0 <= k < i + 1 && #[trigger] self.entries_chirho@[k] == (x, col_chirho) by {
                    if exists|k: int| 0 <= k < i + 1 && #[trigger] self.entries_chirho@[k] == (x, col_chirho) {
                        let k = choose|k: int| 0 <= k < i + 1 && #[trigger] self.entries_chirho@[k] == (x, col_chirho);
                        if k < i {
                            assert(prev.contains(x));
                        }
                    }
                    if out@.contains(x) && !prev.contains(x) {
                        assert(self.entries_chirho@[i as int] == (x, col_chirho));
                    }
                }
            }
            i = i + 1;
        }
        proof {
            assert forall|x: u32| out@.contains(x) == #[trigger] self.has(x, col_chirho) by {
                if self.has(x, col_chirho) {
                    let k = choose|k: int| 0 <= k < self.entries_chirho.len() && self.entries_chirho@[k] == (x, col_chirho);
                    assert(self.entries_chirho@[k] == (x, col_chirho));
                }
            }
        }
        out
    }

    /// Number of ones.
    pub fn nnz_chirho(&self) -> (r: usize)
        ensures
            r == self.ones().len(),
    {
        proof {
            use_type_invariant(self);
            self.entries_chirho@.unique_seq_to_set();
        }
        self.entries_chirho.len()
    }

    /// Add a listed-once entry known to be absent, inside the given dimensions.
    fn push_new_chirho(entries: &mut Vec<(u32, u32)>, p: (u32, u32))
        requires
            old(entries)@.no_duplicates(),
            !old(entries)@.contains(p),
        ensures
            final(entries)@ == old(entries)@.push(p),
            final(entries)@.no_duplicates(),
    {
        entries.push(p);
        proof {
            assert forall|i: int, j: int| 0 <= i < j < entries@.len() implies entries@[i] != entries@[j] by {
                if j == entries@.len() - 1 {
                    assert(old(entries)@.contains(entries@[i]));
                }
            }
        }
    }

    /// Ones in both (dimensions: the larger of each).
    pub fn and_chirho(&self, other_chirho: &BitMatrixChirho) -> (r: BitMatrixChirho)
        ensures
            r.nrows() == if self.nrows() > other_chirho.nrows() { self.nrows() } else { other_chirho.nrows() },
            r.ncols() == if self.ncols() > other_chirho.ncols() { self.ncols() } else { other_chirho.ncols() },
            forall|i: u32, j: u32| #[trigger] r.has(i, j) == (self.has(i, j) && other_chirho.has(i, j)),
    {
        proof {
            use_type_invariant(self);
            use_type_invariant(other_chirho);
        }
        let nr = if self.num_rows_chirho > other_chirho.num_rows_chirho { self.num_rows_chirho } else { other_chirho.num_rows_chirho };
        let nc = if self.num_cols_chirho > other_chirho.num_cols_chirho { self.num_cols_chirho } else { other_chirho.num_cols_chirho };
        let mut entries: Vec<(u32, u32)> = Vec::new();
        let mut k: usize = 0;
        while k < self.entries_chirho.len()
            invariant
                k <= self.entries_chirho.len(),
                self.entries_chirho@.no_duplicates(),
                forall|t: int| 0 <= t < self.entries_chirho@.len() ==> (#[trigger] self.entries_chirho@[t]).0 < self.num_rows_chirho
                    && self.entries_chirho@[t].1 < self.num_cols_chirho,
                self.num_rows_chirho <= nr && self.num_cols_chirho <= nc,
                entries@.no_duplicates(),
                forall|t: int| 0 <= t < entries@.len() ==> (#[trigger] entries@[t]).0 < nr && entries@[t].1 < nc,
                forall|i: u32, j: u32| #[trigger] entries@.contains((i, j)) == (other_chirho.has(i, j) && exists|t: int|
                    0 <= t < k && self.entries_chirho@[t] == (i, j)),
            decreases self.entries_chirho.len() - k,
        {
            let (a, b) = self.entries_chirho[k];
            let ghost prev = entries@;
            if other_chirho.get_chirho(a, b) {
                proof {
                    if prev.contains((a, b)) {
                        let t = choose|t: int| 0 <= t < k && self.entries_chirho@[t] == (a, b);
                        assert(self.entries_chirho@[t] == self.entries_chirho@[k as int]);
                    }
                }
                Self::push_new_chirho(&mut entries, (a, b));
            }
            proof {
                assert forall|i: u32, j: u32| #[trigger] entries@.contains((i, j)) == (other_chirho.has(i, j) && exists|t: int|
                    0 <= t < k + 1 && self.entries_chirho@[t] == (i, j)) by {
                    if other_chirho.has(i, j) && exists|t: int| 0 <= t < k + 1 && self.entries_chirho@[t] == (i, j) {
                        let t = choose|t: int| 0 <= t < k + 1 && self.entries_chirho@[t] == (i, j);
                        if t < k {
                            assert(prev.contains((i, j)));
                        }
                    }
                    if entries@.contains((i, j)) && !prev.contains((i, j)) {
                        assert(self.entries_chirho@[k as int] == (i, j));
                    }
                }
            }
            k = k + 1;
        }
        let r = Self { entries_chirho: entries, num_rows_chirho: nr, num_cols_chirho: nc };
        proof {
            assert forall|i: u32, j: u32| #[trigger] r.has(i, j) == (self.has(i, j) && other_chirho.has(i, j)) by {
                if self.has(i, j) {
                    let t = choose|t: int| 0 <= t < self.entries_chirho@.len() && self.entries_chirho@[t] == (i, j);
                }
            }
        }
        r
    }

    /// Ones in either (dimensions: the larger of each).
    pub fn or_chirho(&self, other_chirho: &BitMatrixChirho) -> (r: BitMatrixChirho)
        ensures
            r.nrows() == if self.nrows() > other_chirho.nrows() { self.nrows() } else { other_chirho.nrows() },
            r.ncols() == if self.ncols() > other_chirho.ncols() { self.ncols() } else { other_chirho.ncols() },
            forall|i: u32, j: u32| #[trigger] r.has(i, j) == (self.has(i, j) || other_chirho.has(i, j)),
    {
        proof {
            use_type_invariant(self);
            use_type_invariant(other_chirho);
        }
        let nr = if self.num_rows_chirho > other_chirho.num_rows_chirho { self.num_rows_chirho } else { other_chirho.num_rows_chirho };
        let nc = if self.num_cols_chirho > other_chirho.num_cols_chirho { self.num_cols_chirho } else { other_chirho.num_cols_chirho };
        let mut entries: Vec<(u32, u32)> = Vec::new();
        let mut k: usize = 0;
        while k < self.entries_chirho.len()
            invariant
                k <= self.entries_chirho.len(),
                self.entries_chirho@.no_duplicates(),
                forall|t: int| 0 <= t < self.entries_chirho@.len() ==> (#[trigger] self.entries_chirho@[t]).0 < self.num_rows_chirho
                    && self.entries_chirho@[t].1 < self.num_cols_chirho,
                self.num_rows_chirho <= nr && self.num_cols_chirho <= nc,
                entries@ == self.entries_chirho@.subrange(0, k as int),
            decreases self.entries_chirho.len() - k,
        {
            entries.push(self.entries_chirho[k]);
            k = k + 1;
        }
        assert(entries@ == self.entries_chirho@);
        let mut k: usize = 0;
        while k < other_chirho.entries_chirho.len()
            invariant
                k <= other_chirho.entries_chirho.len(),
                forall|t: int| 0 <= t < other_chirho.entries_chirho@.len() ==> (#[trigger] other_chirho.entries_chirho@[t]).0 < other_chirho.num_rows_chirho
                    && other_chirho.entries_chirho@[t].1 < other_chirho.num_cols_chirho,
                self.num_rows_chirho <= nr && self.num_cols_chirho <= nc,
                other_chirho.num_rows_chirho <= nr && other_chirho.num_cols_chirho <= nc,
                entries@.no_duplicates(),
                forall|t: int| 0 <= t < entries@.len() ==> (#[trigger] entries@[t]).0 < nr && entries@[t].1 < nc,
                forall|i: u32, j: u32| #[trigger] entries@.contains((i, j)) == (self.has(i, j) || exists|t: int|
                    0 <= t < k && other_chirho.entries_chirho@[t] == (i, j)),
            decreases other_chirho.entries_chirho.len() - k,
        {
            let (a, b) = other_chirho.entries_chirho[k];
            let ghost prev = entries@;
            if !self.get_chirho(a, b) {
                let mut present = false;
                let mut t: usize = 0;
                while t < entries.len()
                    invariant
                        t <= entries.len(),
                        present == exists|s: int| 0 <= s < t && entries@[s] == (a, b),
                    decreases entries.len() - t,
                {
                    if entries[t].0 == a && entries[t].1 == b {
                        present = true;
                    }
                    t = t + 1;
                }
                if !present {
                    Self::push_new_chirho(&mut entries, (a, b));
                }
            }
            proof {
                assert forall|i: u32, j: u32| #[trigger] entries@.contains((i, j)) == (self.has(i, j) || exists|t: int|
                    0 <= t < k + 1 && other_chirho.entries_chirho@[t] == (i, j)) by {
                    if exists|t: int| 0 <= t < k + 1 && other_chirho.entries_chirho@[t] == (i, j) {
                        let t = choose|t: int| 0 <= t < k + 1 && other_chirho.entries_chirho@[t] == (i, j);
                        if t < k {
                            assert(prev.contains((i, j)));
                        }
                    }
                    if entries@.contains((i, j)) && !prev.contains((i, j)) {
                        assert(other_chirho.entries_chirho@[k as int] == (i, j));
                    }
                }
            }
            k = k + 1;
        }
        let r = Self { entries_chirho: entries, num_rows_chirho: nr, num_cols_chirho: nc };
        proof {
            assert forall|i: u32, j: u32| #[trigger] r.has(i, j) == (self.has(i, j) || other_chirho.has(i, j)) by {
                if other_chirho.has(i, j) {
                    let t = choose|t: int| 0 <= t < other_chirho.entries_chirho@.len() && other_chirho.entries_chirho@[t] == (i, j);
                }
            }
        }
        r
    }

    /// Boolean product: `(i, j)` when some `k` has `(i, k)` here and `(k, j)` in `other`.
    pub fn matmul_chirho(&self, other_chirho: &BitMatrixChirho) -> (r: BitMatrixChirho)
        ensures
            r.nrows() == self.nrows() && r.ncols() == other_chirho.ncols(),
            forall|i: u32, j: u32| #[trigger] r.has(i, j) == exists|k: u32| #[trigger] self.has(i, k) && other_chirho.has(k, j),
    {
        proof {
            use_type_invariant(self);
            use_type_invariant(other_chirho);
        }
        let mut result = BitMatrixChirho::new(self.num_rows_chirho, other_chirho.num_cols_chirho);
        let mut a: usize = 0;
        while a < self.entries_chirho.len()
            invariant
                a <= self.entries_chirho.len(),
                forall|t: int| 0 <= t < self.entries_chirho@.len() ==> (#[trigger] self.entries_chirho@[t]).0 < self.num_rows_chirho
                    && self.entries_chirho@[t].1 < self.num_cols_chirho,
                forall|t: int| 0 <= t < other_chirho.entries_chirho@.len() ==> (#[trigger] other_chirho.entries_chirho@[t]).0 < other_chirho.num_rows_chirho
                    && other_chirho.entries_chirho@[t].1 < other_chirho.num_cols_chirho,
                result.nrows() == self.nrows() && result.ncols() == other_chirho.ncols(),
                forall|i: u32, j: u32| #[trigger] result.has(i, j) == exists|t: int|
                    0 <= t < a && (#[trigger] self.entries_chirho@[t]).0 == i && other_chirho.has(self.entries_chirho@[t].1, j),
            decreases self.entries_chirho.len() - a,
        {
            let (i, k) = self.entries_chirho[a];
            let mut b: usize = 0;
            while b < other_chirho.entries_chirho.len()
                invariant
                    a < self.entries_chirho.len(),
                    self.entries_chirho@[a as int] == (i, k),
                    i < self.num_rows_chirho,
                    b <= other_chirho.entries_chirho.len(),
                    forall|t: int| 0 <= t < other_chirho.entries_chirho@.len() ==> (#[trigger] other_chirho.entries_chirho@[t]).0 < other_chirho.num_rows_chirho
                        && other_chirho.entries_chirho@[t].1 < other_chirho.num_cols_chirho,
                    result.nrows() == self.nrows() && result.ncols() == other_chirho.ncols(),
                    forall|x: u32, j: u32| #[trigger] result.has(x, j) == ((exists|t: int|
                        0 <= t < a && (#[trigger] self.entries_chirho@[t]).0 == x && other_chirho.has(self.entries_chirho@[t].1, j))
                        || (x == i && exists|u: int| 0 <= u < b && #[trigger] other_chirho.entries_chirho@[u] == (k, j))),
                decreases other_chirho.entries_chirho.len() - b,
            {
                let (k2, j) = other_chirho.entries_chirho[b];
                let ghost prev = result;
                if k == k2 {
                    result.set_chirho(i, j);
                }
                proof {
                    assert forall|x: u32, jj: u32| #[trigger] result.has(x, jj) == ((exists|t: int|
                        0 <= t < a && (#[trigger] self.entries_chirho@[t]).0 == x && other_chirho.has(self.entries_chirho@[t].1, jj))
                        || (x == i && exists|u: int| 0 <= u < b + 1 && #[trigger] other_chirho.entries_chirho@[u] == (k, jj))) by {
                        if x == i && exists|u: int| 0 <= u < b + 1 && #[trigger] other_chirho.entries_chirho@[u] == (k, jj) {
                            let u = choose|u: int| 0 <= u < b + 1 && #[trigger] other_chirho.entries_chirho@[u] == (k, jj);
                            if u < b {
                                assert(prev.has(x, jj));
                            }
                        }
                        if x == i && jj == j && k == k2 {
                            assert(other_chirho.entries_chirho@[b as int] == (k, jj));
                        }
                    }
                }
                b = b + 1;
            }
            proof {
                assert forall|x: u32, j: u32| #[trigger] result.has(x, j) == exists|t: int|
                    0 <= t < a + 1 && (#[trigger] self.entries_chirho@[t]).0 == x && other_chirho.has(self.entries_chirho@[t].1, j) by {
                    if x == i && exists|u: int| 0 <= u < other_chirho.entries_chirho.len() && #[trigger] other_chirho.entries_chirho@[u] == (k, j) {
                        let u = choose|u: int| 0 <= u < other_chirho.entries_chirho.len() && #[trigger] other_chirho.entries_chirho@[u] == (k, j);
                        assert(other_chirho.has(k, j));
                        assert(self.entries_chirho@[a as int].0 == x);
                    }
                    if exists|t: int| 0 <= t < a + 1 && (#[trigger] self.entries_chirho@[t]).0 == x && other_chirho.has(self.entries_chirho@[t].1, j) {
                        let t = choose|t: int| 0 <= t < a + 1 && (#[trigger] self.entries_chirho@[t]).0 == x && other_chirho.has(self.entries_chirho@[t].1, j);
                        if t == a {
                            let u = choose|u: int| 0 <= u < other_chirho.entries_chirho.len() && other_chirho.entries_chirho@[u] == (k, j);
                            assert(other_chirho.entries_chirho@[u] == (k, j));
                        }
                    }
                }
            }
            a = a + 1;
        }
        proof {
            assert forall|i: u32, j: u32| #[trigger] result.has(i, j) == exists|k: u32| #[trigger] self.has(i, k) && other_chirho.has(k, j) by {
                if exists|k: u32| #[trigger] self.has(i, k) && other_chirho.has(k, j) {
                    let k = choose|k: u32| #[trigger] self.has(i, k) && other_chirho.has(k, j);
                    let t = choose|t: int| 0 <= t < self.entries_chirho@.len() && self.entries_chirho@[t] == (i, k);
                    assert(self.entries_chirho@[t] == (i, k));
                }
                if result.has(i, j) {
                    let t = choose|t: int| 0 <= t < self.entries_chirho@.len() && (#[trigger] self.entries_chirho@[t]).0 == i
                        && other_chirho.has(self.entries_chirho@[t].1, j);
                    assert(self.has(i, self.entries_chirho@[t].1));
                }
            }
        }
        result
    }

    /// Transpose: `(c, r)` for every `(r, c)`, dimensions swapped.
    pub fn transpose_chirho(&self) -> (r: BitMatrixChirho)
        ensures
            r.nrows() == self.ncols() && r.ncols() == self.nrows(),
            forall|i: u32, j: u32| #[trigger] r.has(i, j) == self.has(j, i),
    {
        proof {
            use_type_invariant(self);
        }
        let mut entries: Vec<(u32, u32)> = Vec::new();
        let mut k: usize = 0;
        while k < self.entries_chirho.len()
            invariant
                k <= self.entries_chirho.len(),
                self.entries_chirho@.no_duplicates(),
                forall|t: int| 0 <= t < self.entries_chirho@.len() ==> (#[trigger] self.entries_chirho@[t]).0 < self.num_rows_chirho
                    && self.entries_chirho@[t].1 < self.num_cols_chirho,
                entries@.len() == k,
                forall|t: int| 0 <= t < k ==> #[trigger] entries@[t] == (self.entries_chirho@[t].1, self.entries_chirho@[t].0),
            decreases self.entries_chirho.len() - k,
        {
            let (a, b) = self.entries_chirho[k];
            entries.push((b, a));
            k = k + 1;
        }
        let r = Self { entries_chirho: entries, num_rows_chirho: self.num_cols_chirho, num_cols_chirho: self.num_rows_chirho };
        proof {
            assert forall|s: int, t: int| 0 <= s < t < entries@.len() implies entries@[s] != entries@[t] by {
                assert(self.entries_chirho@[s] != self.entries_chirho@[t]);
            }
            assert forall|i: u32, j: u32| #[trigger] r.has(i, j) == self.has(j, i) by {
                if self.has(j, i) {
                    let t = choose|t: int| 0 <= t < self.entries_chirho@.len() && self.entries_chirho@[t] == (j, i);
                    assert(entries@[t] == (i, j));
                }
                if r.has(i, j) {
                    let t = choose|t: int| 0 <= t < entries@.len() && entries@[t] == (i, j);
                    assert(self.entries_chirho@[t] == (j, i));
                }
            }
        }
        r
    }

    /// `(rows, cols)`.
    pub fn shape_chirho(&self) -> (r: (u32, u32))
        ensures
            r.0 == self.nrows() && r.1 == self.ncols(),
    {
        (self.num_rows_chirho, self.num_cols_chirho)
    }

    /// The positions holding a one, each once.
    pub fn iter_chirho(&self) -> (r: Vec<(u32, u32)>)
        ensures
            r@.no_duplicates(),
            r@.to_set() == self.ones(),
    {
        proof {
            use_type_invariant(self);
        }
        let mut out: Vec<(u32, u32)> = Vec::new();
        let mut k: usize = 0;
        while k < self.entries_chirho.len()
            invariant
                k <= self.entries_chirho.len(),
                out@ == self.entries_chirho@.subrange(0, k as int),
            decreases self.entries_chirho.len() - k,
        {
            out.push(self.entries_chirho[k]);
            k = k + 1;
        }
        assert(out@ == self.entries_chirho@);
        out
    }
}

impl Default for BitMatrixChirho {
    fn default() -> (r: Self)
        ensures
            r.nrows() == 0 && r.ncols() == 0,
            forall|i: u32, j: u32| !#[trigger] r.has(i, j),
    {
        Self::new(0, 0)
    }
}

/// Position `d` (0, 1 or 2) of a triple.
pub open spec fn coord(t: (u32, u32, u32), d: int) -> u32 {
    if d == 0 { t.0 } else if d == 1 { t.1 } else { t.2 }
}

/// The two positions that remain once position `d` is taken out, in order.
pub open spec fn rest(t: (u32, u32, u32), d: int) -> (u32, u32) {
    if d == 0 { (t.1, t.2) } else if d == 1 { (t.0, t.2) } else { (t.0, t.1) }
}

/// Sparse 3-dimensional Boolean tensor: the triples that hold a one, each once.
#[derive(Debug)]
pub struct BitTensor3Chirho {
    entries_chirho: Vec<(u32, u32, u32)>,
}

impl BitTensor3Chirho {
    #[verifier::type_invariant]
    spec fn inv(self) -> bool {
        self.entries_chirho@.no_duplicates()
    }

    /// The triples holding a one.
    pub closed spec fn ones(self) -> Set<(u32, u32, u32)> {
        self.entries_chirho@.to_set()
    }

    /// An all-zero tensor.
    pub fn new() -> (r: Self)
        ensures
            r.ones() == Set::<(u32, u32, u32)>::empty(),
    {
        let r = Self { entries_chirho: Vec::new() };
        assert(r.ones() =~= Set::<(u32, u32, u32)>::empty());
        r
    }

    fn find_chirho(&self, i_chirho: u32, j_chirho: u32, k_chirho: u32) -> (r: bool)
        ensures
            r == self.ones().contains((i_chirho, j_chirho, k_chirho)),
    {
        let mut t: usize = 0;
        while t < self.entries_chirho.len()
            invariant
                t <= self.entries_chirho.len(),
                forall|s: int| 0 <= s < t ==> #[trigger] self.entries_chirho@[s] != (i_chirho, j_chirho, k_chirho),
            decreases self.entries_chirho.len() - t,
        {
            let (a, b, c) = self.entries_chirho[t];
            if a == i_chirho && b == j_chirho && c == k_chirho {
                assert(self.entries_chirho@[t as int] == (i_chirho, j_chirho, k_chirho));
                return true;
            }
            t = t + 1;
        }
        false
    }

    /// Put a one at `(i, j, k)`.
    pub fn set_chirho(&mut self, i_chirho: u32, j_chirho: u32, k_chirho: u32)
        ensures
            final(self).ones() == old(self).ones().insert((i_chirho, j_chirho, k_chirho)),
    {
        proof {
            use_type_invariant(&*self);
        }
        let present = self.find_chirho(i_chirho, j_chirho, k_chirho);
        let mut entries = Vec::new();
        std::mem::swap(&mut entries, &mut self.entries_chirho);
        proof {
            assert(entries@ == old(self).entries_chirho@);
        }
        if !present {
            entries.push((i_chirho, j_chirho, k_chirho));
            proof {
                old(self).entries_chirho@.lemma_push_to_set_commute((i_chirho, j_chirho, k_chirho));
                assert forall|s: int, t: int| 0 <= s < t < entries@.len() implies entries@[s] != entries@[t] by {
                    if t == entries@.len() - 1 {
                        assert(old(self).entries_chirho@.contains(entries@[s]));
                    }
                }
            }
        }
        *self = Self { entries_chirho: entries };
        assert(self.ones() =~= old(self).ones().insert((i_chirho, j_chirho, k_chirho)));
    }

    /// Does `(i, j, k)` hold a one?
    pub fn get_chirho(&self, i_chirho: u32, j_chirho: u32, k_chirho: u32) -> (r: bool)
        ensures
            r == self.ones().contains((i_chirho, j_chirho, k_chirho)),
    {
        self.find_chirho(i_chirho, j_chirho, k_chirho)
    }

    /// Number of ones.
    pub fn nnz_chirho(&self) -> (r: usize)
        ensures
            r == self.ones().len(),
    {
        proof {
            use_type_invariant(self);
            self.entries_chirho@.unique_seq_to_set();
        }
        self.entries_chirho.len()
    }

    /// Select the triples whose position `dim` lies in `values` and keep the two
    /// other positions, as a sparse matrix (empty when `dim` is past 2).
    pub fn contract_chirho(&self, dim_chirho: usize, values_chirho: &HashSet<u32>) -> (r: BitMatrixChirho)
        requires
            forall|t: (u32, u32, u32)| #[trigger] self.ones().contains(t) && dim_chirho < 3 && values_chirho@.contains(coord(t, dim_chirho as int))
                ==> rest(t, dim_chirho as int).0 < u32::MAX && rest(t, dim_chirho as int).1 < u32::MAX,
        ensures
            forall|a: u32, b: u32| #[trigger] r.has(a, b) == (dim_chirho < 3 && exists|t: (u32, u32, u32)|
                #[trigger] self.ones().contains(t) && values_chirho@.contains(coord(t, dim_chirho as int)) && rest(t, dim_chirho as int) == (a, b)),
    {
        let mut result = BitMatrixChirho::new(0, 0);
        let mut s: usize = 0;
        while s < self.entries_chirho.len()
            invariant
                s <= self.entries_chirho.len(),
                forall|t: (u32, u32, u32)| #[trigger] self.ones().contains(t) && dim_chirho < 3 && values_chirho@.contains(coord(t, dim_chirho as int))
                    ==> rest(t, dim_chirho as int).0 < u32::MAX && rest(t, dim_chirho as int).1 < u32::MAX,
                forall|a: u32, b: u32| #[trigger] result.has(a, b) == (dim_chirho < 3 && exists|q: int|
                    0 <= q < s && values_chirho@.contains(coord(#[trigger] self.entries_chirho@[q], dim_chirho as int))
                    && rest(self.entries_chirho@[q], dim_chirho as int) == (a, b)),
            decreases self.entries_chirho.len() - s,
        {
            let (i, j, k) = self.entries_chirho[s];
            let selected = if dim_chirho == 0 {
                values_chirho.contains(&i)
            } else if dim_chirho == 1 {
                values_chirho.contains(&j)
            } else if dim_chirho == 2 {
                values_chirho.contains(&k)
            } else {
                false
            };
            let ghost prev = result;
            proof {
                assert(self.ones().contains(self.entries_chirho@[s as int]));
            }
            if selected {
                let (a, b) = if dim_chirho == 0 { (j, k) } else if dim_chirho == 1 { (i, k) } else { (i, j) };
                result.set_chirho(a, b);
            }
            proof {
                assert forall|a: u32, b: u32| #[trigger] result.has(a, b) == (dim_chirho < 3 && exists|q: int|
                    0 <= q < s + 1 && values_chirho@.contains(coord(#[trigger] self.entries_chirho@[q], dim_chirho as int))
                    && rest(self.entries_chirho@[q], dim_chirho as int) == (a, b)) by {
                    if dim_chirho < 3 && exists|q: int| 0 <= q < s + 1 && values_chirho@.contains(coord(#[trigger] self.entries_chirho@[q], dim_chirho as int))
                        && rest(self.entries_chirho@[q], dim_chirho as int) == (a, b) {
                        let q = choose|q: int| 0 <= q < s + 1 && values_chirho@.contains(coord(#[trigger] self.entries_chirho@[q], dim_chirho as int))
                            && rest(self.entries_chirho@[q], dim_chirho as int) == (a, b);
                        if q < s {
                            assert(prev.has(a, b));
                        }
                    }
                }
            }
            s = s + 1;
        }
        proof {
            assert forall|a: u32, b: u32| #[trigger] result.has(a, b) == (dim_chirho < 3 && exists|t: (u32, u32, u32)|
                #[trigger] self.ones().contains(t) && values_chirho@.contains(coord(t, dim_chirho as int)) && rest(t, dim_chirho as int) == (a, b)) by {
                if dim_chirho < 3 && exists|t: (u32, u32, u32)| #[trigger] self.ones().contains(t) && values_chirho@.contains(coord(t, dim_chirho as int))
                    && rest(t, dim_chirho as int) == (a, b) {
                    let t = choose|t: (u32, u32, u32)| #[trigger] self.ones().contains(t) && values_chirho@.contains(coord(t, dim_chirho as int))
                        && rest(t, dim_chirho as int) == (a, b);
                    let q = choose|q: int| 0 <= q < self.entries_chirho@.len() && self.entries_chirho@[q] == t;
                    assert(self.entries_chirho@[q] == t);
                }
                if result.has(a, b) {
                    let q = choose|q: int| 0 <= q < self.entries_chirho@.len() && values_chirho@.contains(coord(#[trigger] self.entries_chirho@[q], dim_chirho as int))
                        && rest(self.entries_chirho@[q], dim_chirho as int) == (a, b);
                    assert(self.ones().contains(self.entries_chirho@[q]));
                }
            }
        }
        result
    }

    /// With two positions fixed to given values, the values at the third
    /// position of the matching triples, each once.
    pub fn query_chirho(&self, fixed_dims_chirho: [(usize, u32); 2]) -> (r: Vec<u32>)
        requires
            fixed_dims_chirho[0].0 < 3,
            fixed_dims_chirho[1].0 < 3,
            fixed_dims_chirho[0].0 != fixed_dims_chirho[1].0,
        ensures
            r@.no_duplicates(),
            forall|v: u32| r@.contains(v) == exists|t: (u32, u32, u32)| #[trigger] self.ones().contains(t)
                && coord(t, fixed_dims_chirho[0].0 as int) == fixed_dims_chirho[0].1
                && coord(t, fixed_dims_chirho[1].0 as int) == fixed_dims_chirho[1].1
                && coord(t, 3 - fixed_dims_chirho[0].0 - fixed_dims_chirho[1].0) == v,
    {
        proof {
            use_type_invariant(self);
        }
        let (d0, v0) = fixed_dims_chirho[0];
        let (d1, v1) = fixed_dims_chirho[1];
        let free = 3 - d0 - d1;
        let mut out: Vec<u32> = Vec::new();
        let mut s: usize = 0;
        while s < self.entries_chirho.len()
            invariant
                s <= self.entries_chirho.len(),
                self.entries_chirho@.no_duplicates(),
                d0 < 3 && d1 < 3 && d0 != d1 && free == 3 - d0 - d1,
                out@.no_duplicates(),
                forall|v: u32| out@.contains(v) == exists|q: int| 0 <= q < s
                    && coord(#[trigger] self.entries_chirho@[q], d0 as int) == v0
                    && coord(self.entries_chirho@[q], d1 as int) == v1
                    && coord(self.entries_chirho@[q], free as int) == v,
            decreases self.entries_chirho.len() - s,
        {
            let (i, j, k) = self.entries_chirho[s];
            let vals = [i, j, k];
            let ghost prev = out@;
            if vals[d0] == v0 && vals[d1] == v1 {
                let v = vals[free];
                proof {
                    if prev.contains(v) {
                        let q = choose|q: int| 0 <= q < s && coord(#[trigger] self.entries_chirho@[q], d0 as int) == v0
                            && coord(self.entries_chirho@[q], d1 as int) == v1 && coord(self.entries_chirho@[q], free as int) == v;
                        assert(self.entries_chirho@[q] == self.entries_chirho@[s as int]);
                    }
                }
                out.push(v);
            }
            proof {
                assert forall|v: u32| out@.contains(v) == exists|q: int| 0 <= q < s + 1
                    && coord(#[trigger] self.entries_chirho@[q], d0 as int) == v0
                    && coord(self.entries_chirho@[q], d1 as int) == v1
                    && coord(self.entries_chirho@[q], free as int) == v by {
                    if exists|q: int| 0 <= q < s + 1 && coord(#[trigger] self.entries_chirho@[q], d0 as int) == v0
                        && coord(self.entries_chirho@[q], d1 as int) == v1 && coord(self.entries_chirho@[q], free as int) == v {
                        let q = choose|q: int| 0 <= q < s + 1 && coord(#[trigger] self.entries_chirho@[q], d0 as int) == v0
                            && coord(self.entries_chirho@[q], d1 as int) == v1 && coord(self.entries_chirho@[q], free as int) == v;
                        if q < s {
                            assert(prev.contains(v));
                        }
                    }
                    if out@.contains(v) && !prev.contains(v) {
                        assert(coord(self.entries_chirho@[s as int], free as int) == v);
                    }
                }
            }
            s = s + 1;
        }
        proof {
            assert forall|v: u32| out@.contains(v) == exists|t: (u32, u32, u32)| #[trigger] self.ones().contains(t)
                && coord(t, d0 as int) == v0 && coord(t, d1 as int) == v1 && coord(t, 3 - d0 - d1) == v by {
                if exists|t: (u32, u32, u32)| #[trigger] self.ones().contains(t)
                    && coord(t, d0 as int) == v0 && coord(t, d1 as int) == v1 && coord(t, 3 - d0 - d1) == v {
                    let t = choose|t: (u32, u32, u32)| #[trigger] self.ones().contains(t)
                        && coord(t, d0 as int) == v0 && coord(t, d1 as int) == v1 && coord(t, 3 - d0 - d1) == v;
                    let q = choose|q: int| 0 <= q < self.entries_chirho@.len() && self.entries_chirho@[q] == t;
                    assert(self.entries_chirho@[q] == t);
                }
                if out@.contains(v) {
                    let q = choose|q: int| 0 <= q < self.entries_chirho@.len() && coord(#[trigger] self.entries_chirho@[q], d0 as int) == v0
                        && coord(self.entries_chirho@[q], d1 as int) == v1 && coord(self.entries_chirho@[q], free as int) == v;
                    assert(self.ones().contains(self.entries_chirho@[q]));
                }
            }
        }
        out
    }

    /// The triples holding a one, each once.
    pub fn iter_chirho(&self) -> (r: Vec<(u32, u32, u32)>)
        ensures
            r@.no_duplicates(),
            r@.to_set() == self.ones(),
    {
        proof {
            use_type_invariant(self);
        }
        let mut out: Vec<(u32, u32, u32)> = Vec::new();
        let mut k: usize = 0;
        while k < self.entries_chirho.len()
            invariant
                k <= self.entries_chirho.len(),
                out@ == self.entries_chirho@.subrange(0, k as int),
            decreases self.entries_chirho.len() - k,
        {
            out.push(self.entries_chirho[k]);
            k = k + 1;
        }
        assert(out@ == self.entries_chirho@);
        out
    }
}

impl Default for BitTensor3Chirho {
    fn default() -> (r: Self)
        ensures
            r.ones() == Set::<(u32, u32, u32)>::empty(),
    {
        Self::new()
    }
}

} // verus!
