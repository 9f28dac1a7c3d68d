//! Binary relations as bit matrices: a sparse form that lists its pairs, and a
//! dense form over at most 64 elements whose rows are single words, so that
//! union is a row-wise OR and composition ORs together the rows it selects.

use vstd::prelude::*;
use crate::bits::{bit64, popcount64, lemma_or_bits, lemma_shl_bits, lemma_zero_iff_no_bits, lemma_popcount64_mono,
    lemma_popcount64_bound};
use crate::hardware::BitVec64Chirho;

verus! {

broadcast use vstd::seq_lib::lemma_seq_contains_after_push;

/// Sum of the counts of the first `n` rows.
pub open spec fn row_total(rows: Seq<BitVec64Chirho>, n: nat) -> nat
    decreases n,
{
    if n == 0 {
        0
    } else {
        row_total(rows, (n - 1) as nat) + popcount64(rows[n - 1].0)
    }
}

proof fn lemma_row_total_bound(rows: Seq<BitVec64Chirho>, n: nat)
    ensures
        row_total(rows, n) <= 64 * n,
    decreases n,
{
    if n > 0 {
        lemma_row_total_bound(rows, (n - 1) as nat);
        lemma_popcount64_bound(rows[n - 1].0);
    }
}

proof fn lemma_row_total_mono(a: Seq<BitVec64Chirho>, b: Seq<BitVec64Chirho>, n: nat)
    requires
        n <= a.len(),
        n <= b.len(),
        forall|i: int, j: int| 0 <= i < n && #[trigger] bit64(a[i].0, j) ==> bit64(b[i].0, j),
    ensures
        row_total(a, n) <= row_total(b, n),
        (exists|i: int| 0 <= i < n && a[i].0 != b[i].0) ==> row_total(a, n) < row_total(b, n),
    decreases n,
{
    if n > 0 {
        lemma_row_total_mono(a, b, (n - 1) as nat);
        lemma_popcount64_mono(a[n - 1].0, b[n - 1].0);
        if exists|i: int| 0 <= i < n && a[i].0 != b[i].0 {
            let i = choose|i: int| 0 <= i < n && a[i].0 != b[i].0;
            if i < n - 1 {
                assert(exists|i: int| 0 <= i < n - 1 && a[i].0 != b[i].0);
            }
        }
    }
}

/// `s` holds on every pair of `r` and is closed under composing with `r` on the right.
pub open spec fn closed_under(s: spec_fn(int, int) -> bool, r: DenseRelationChirho) -> bool {
    &&& forall|a: int, b: int| #[trigger] r.holds(a, b) ==> s(a, b)
    &&& forall|a: int, b: int, c: int| #[trigger] s(a, b) && #[trigger] r.holds(b, c) ==> s(a, c)
}

/// A relation over the elements `0..size` (`size <= 64`), one word per row:
/// bit `b` of row `a` is set when the relation holds of `(a, b)`.
#[derive(Debug, Clone, PartialEq, Eq)]
pub struct DenseRelationChirho {
    pub name_chirho: String,
    /// `rows_chirho[a]` has bit `b` set when the relation holds of `(a, b)`.
    pub rows_chirho: Vec<BitVec64Chirho>,
    pub size_chirho: usize,
}

impl DenseRelationChirho {
    /// One row per element, at most 64 elements.
    pub open spec fn wf(&self) -> bool {
        &&& self.rows_chirho.len() == self.size_chirho
        &&& self.size_chirho <= 64
    }

    /// The relation holds of `(a, b)`.
    pub open spec fn holds(&self, a: int, b: int) -> bool {
        0 <= a < self.rows_chirho.len() && bit64(self.rows_chirho[a].0, b)
    }

    /// Every pair names elements below `size` on both sides.
    pub open spec fn within_domain(&self) -> bool {
        forall|a: int, b: int| #[trigger] self.holds(a, b) ==> b < self.size_chirho
    }

    /// The empty relation over `0..size_chirho`.
    pub fn new_chirho(name_chirho: &str, size_chirho: usize) -> (r: Self)
        requires
            size_chirho <= 64,
        ensures
            r.wf(),
            r.size_chirho == size_chirho,
            r.name_chirho@ == name_chirho@,
            forall|a: int, b: int| !#[trigger] r.holds(a, b),
    {
        let mut rows: Vec<BitVec64Chirho> = Vec::new();
        let mut i: usize = 0;
        while i < size_chirho
            invariant
                i <= size_chirho,
                rows.len() == i,
                forall|k: int| 0 <= k < i ==> (#[trigger] rows[k]).0 == 0,
            decreases size_chirho - i,
        {
            rows.push(BitVec64Chirho::ZERO_CHIRHO());
            i = i + 1;
        }
        proof {
            lemma_zero_iff_no_bits(0);
        }
        Self { name_chirho: String::from_str(name_chirho), rows_chirho: rows, size_chirho }
    }

    /// The empty relation over `0..size_chirho` under a name given as a `String`.
    fn named_empty_chirho(name_chirho: String, size_chirho: usize) -> (r: Self)
        requires
            size_chirho <= 64,
        ensures
            r.wf(),
            r.size_chirho == size_chirho,
            r.name_chirho == name_chirho,
            forall|a: int, b: int| !#[trigger] r.holds(a, b),
    {
        let mut rows: Vec<BitVec64Chirho> = Vec::new();
        let mut i: usize = 0;
        while i < size_chirho
            invariant
                i <= size_chirho,
                rows.len() == i,
                forall|k: int| 0 <= k < i ==> (#[trigger] rows[k]).0 == 0,
            decreases size_chirho - i,
        {
            rows.push(BitVec64Chirho::ZERO_CHIRHO());
            i = i + 1;
        }
        proof {
            lemma_zero_iff_no_bits(0);
        }
        Self { name_chirho, rows_chirho: rows, size_chirho }
    }

    /// Add the pair `(a, b)`.
    pub fn add_chirho(&mut self, a_chirho: usize, b_chirho: usize)
        requires
            old(self).wf(),
            a_chirho < old(self).size_chirho,
            b_chirho < 64,
        ensures
            final(self).wf(),
            final(self).size_chirho == old(self).size_chirho,
            final(self).name_chirho == old(self).name_chirho,
            forall|a: int, b: int| #[trigger] final(self).holds(a, b) == (old(self).holds(a, b) || (a == a_chirho && b == b_chirho)),
    {
        let row = self.rows_chirho[a_chirho].set_bit_chirho(b_chirho as u32);
        self.rows_chirho.set(a_chirho, row);
        proof {
            assert forall|a: int, b: int| #[trigger] self.holds(a, b) == (old(self).holds(a, b) || (a == a_chirho && b == b_chirho)) by {
                if a == a_chirho {
                    lemma_or_bits(old(self).rows_chirho[a].0, 1u64 << (b_chirho as u32), b);
                    lemma_shl_bits(b_chirho as u64, b);
                }
            }
        }
    }

    /// Does the relation hold of `(a, b)`?
    pub fn contains_chirho(&self, a_chirho: usize, b_chirho: usize) -> (r: bool)
        requires
            self.wf(),
            a_chirho < self.size_chirho,
            b_chirho < 64,
        ensures
            r == self.holds(a_chirho as int, b_chirho as int),
    {
        self.rows_chirho[a_chirho].test_bit_chirho(b_chirho as u32)
    }

    /// The `b` related to `a`, as a word.
    pub fn query_first_mask_chirho(&self, a_chirho: usize) -> (r: BitVec64Chirho)
        requires
            self.wf(),
            a_chirho < self.size_chirho,
        ensures
            forall|b: int| #[trigger] bit64(r.0, b) == self.holds(a_chirho as int, b),
    {
        self.rows_chirho[a_chirho]
    }

    /// The `b < size` related to `a`, in increasing order.
    pub fn query_first_chirho(&self, a_chirho: usize) -> (r: Vec<usize>)
        requires
            self.wf(),
            a_chirho < self.size_chirho,
        ensures
            forall|k: int| 0 <= k < r.len() ==> #[trigger] r[k] < self.size_chirho && self.holds(a_chirho as int, r[k] as int),
            forall|k: int, l: int| 0 <= k < l < r.len() ==> #[trigger] r[k] < #[trigger] r[l],
            forall|b: int| 0 <= b < self.size_chirho && #[trigger] self.holds(a_chirho as int, b) ==> r@.contains(b as usize),
    {
        let mask = self.rows_chirho[a_chirho];
        let r = collect_bits_chirho(mask, self.size_chirho);
        proof {
            assert forall|b: int| 0 <= b < self.size_chirho && #[trigger] self.holds(a_chirho as int, b) implies r@.contains(b as usize) by {
                assert(bit64(mask.0, b));
            }
        }
        r
    }

    /// The `a` related to `b`, as a word.
    pub fn query_second_mask_chirho(&self, b_chirho: usize) -> (r: BitVec64Chirho)
        requires
            self.wf(),
            b_chirho < 64,
        ensures
            forall|a: int| #[trigger] bit64(r.0, a) == self.holds(a, b_chirho as int),
    {
        let mut result = BitVec64Chirho::ZERO_CHIRHO();
        let mut a: usize = 0;
        proof {
            lemma_zero_iff_no_bits(0);
        }
        while a < self.rows_chirho.len()
            invariant
                a <= self.rows_chirho.len() <= 64,
                b_chirho < 64,
                forall|x: int| #[trigger] bit64(result.0, x) == (x < a && self.holds(x, b_chirho as int)),
            decreases self.rows_chirho.len() - a,
        {
            let ghost prev = result;
            if self.rows_chirho[a].test_bit_chirho(b_chirho as u32) {
                result = result.set_bit_chirho(a as u32);
                proof {
                    assert forall|x: int| #[trigger] bit64(result.0, x) == (x < a + 1 && self.holds(x, b_chirho as int)) by {
                        lemma_or_bits(prev.0, 1u64 << (a as u32), x);
                        lemma_shl_bits(a as u64, x);
                    }
                }
            } else {
                proof {
                    assert forall|x: int| #[trigger] bit64(result.0, x) == (x < a + 1 && self.holds(x, b_chirho as int)) by {
                        if x == a {
                            assert(!self.holds(x, b_chirho as int));
                        }
                    }
                }
            }
            a = a + 1;
        }
        result
    }

    /// The `a < size` related to `b`, in increasing order.
    pub fn query_second_chirho(&self, b_chirho: usize) -> (r: Vec<usize>)
        requires
            self.wf(),
            b_chirho < 64,
        ensures
            forall|k: int| 0 <= k < r.len() ==> #[trigger] r[k] < self.size_chirho && self.holds(r[k] as int, b_chirho as int),
            forall|k: int, l: int| 0 <= k < l < r.len() ==> #[trigger] r[k] < #[trigger] r[l],
            forall|a: int| 0 <= a < self.size_chirho && #[trigger] self.holds(a, b_chirho as int) ==> r@.contains(a as usize),
    {
        let mask = self.query_second_mask_chirho(b_chirho);
        let r = collect_bits_chirho(mask, self.size_chirho);
        proof {
            assert forall|a: int| 0 <= a < self.size_chirho && #[trigger] self.holds(a, b_chirho as int) implies r@.contains(a as usize) by {
                assert(bit64(mask.0, a));
            }
        }
        r
    }

    /// Composition: `(a, c)` when some `b` has `(a, b)` here and `(b, c)` in `other`.
    pub fn compose_chirho(&self, other_chirho: &DenseRelationChirho) -> (r: DenseRelationChirho)
        requires
            self.wf(),
            other_chirho.wf(),
            forall|a: int, b: int| #[trigger] self.holds(a, b) ==> b < other_chirho.size_chirho,
        ensures
            r.wf(),
            r.size_chirho == self.size_chirho,
            r.name_chirho@ == "("@ + self.name_chirho@ + " \u{2218} "@ + other_chirho.name_chirho@ + ")"@,
            forall|a: int, c: int| #[trigger] r.holds(a, c) == exists|b: int| #[trigger] self.holds(a, b) && other_chirho.holds(b, c),
    {
        let name = join_names_chirho(&self.name_chirho, " \u{2218} ", &other_chirho.name_chirho);
        let mut result = DenseRelationChirho::named_empty_chirho(name, self.size_chirho);
        let mut a: usize = 0;
        while a < self.size_chirho
            invariant
                a <= self.size_chirho,
                self.wf(),
                other_chirho.wf(),
                forall|x: int, b: int| #[trigger] self.holds(x, b) ==> b < other_chirho.size_chirho,
                result.wf(),
                result.size_chirho == self.size_chirho,
                result.name_chirho@ == "("@ + self.name_chirho@ + " \u{2218} "@ + other_chirho.name_chirho@ + ")"@,
                forall|x: int, c: int| #[trigger] result.holds(x, c) == (x < a && exists|b: int|
                    #[trigger] self.holds(x, b) && other_chirho.holds(b, c)),
            decreases self.size_chirho - a,
        {
            let row_a = self.rows_chirho[a];
            let mut acc = BitVec64Chirho::ZERO_CHIRHO();
            let mut remaining: u64 = row_a.0;
            proof {
                lemma_zero_iff_no_bits(0);
            }
            while remaining != 0
                invariant
                    a < self.size_chirho,
                    self.wf(),
                    other_chirho.wf(),
                    forall|x: int, b: int| #[trigger] self.holds(x, b) ==> b < other_chirho.size_chirho,
                    row_a == self.rows_chirho[a as int],
                    forall|b: int| #[trigger] bit64(remaining, b) ==> bit64(row_a.0, b),
                    forall|c: int| #[trigger] bit64(acc.0, c) ==> exists|b: int| #[trigger] self.holds(a as int, b) && other_chirho.holds(b, c),
                    forall|b: int, c: int| #[trigger] self.holds(a as int, b) && #[trigger] other_chirho.holds(b, c) && !bit64(remaining, b) ==> bit64(acc.0, c),
                decreases remaining,
            {
                let b = remaining.trailing_zeros();
                proof {
                    crate::bits::lemma_clear_lowest(remaining);
                }
                assert(bit64(remaining, b as int));
                assert(self.holds(a as int, b as int));
                let ghost prev = acc;
                let ghost prev_rem = remaining;
                acc = acc.or_chirho(other_chirho.rows_chirho[b as usize]);
                remaining = remaining & (remaining - 1);
                proof {
                    assert(remaining == prev_rem & ((prev_rem - 1) as u64));
                    assert forall|c: int| #[trigger] bit64(acc.0, c) implies exists|bb: int| #[trigger] self.holds(a as int, bb) && other_chirho.holds(bb, c) by {
                        lemma_or_bits(prev.0, other_chirho.rows_chirho[b as int].0, c);
                        if !bit64(prev.0, c) {
                            assert(self.holds(a as int, b as int) && other_chirho.holds(b as int, c));
                        }
                    }
                    assert forall|bb: int, c: int| #[trigger] self.holds(a as int, bb) && #[trigger] other_chirho.holds(bb, c) && !bit64(remaining, bb) implies bit64(acc.0, c) by {
                        lemma_or_bits(prev.0, other_chirho.rows_chirho[b as int].0, c);
                    }
                }
            }
            let ghost prev_result = result;
            result.rows_chirho.set(a, acc);
            proof {
                lemma_zero_iff_no_bits(0);
                assert forall|x: int, c: int| #[trigger] result.holds(x, c) == (x < a + 1 && exists|b: int|
                    #[trigger] self.holds(x, b) && other_chirho.holds(b, c)) by {
                    if x != a {
                        assert(result.holds(x, c) == prev_result.holds(x, c));
                    } else if exists|b: int| #[trigger] self.holds(x, b) && other_chirho.holds(b, c) {
                        let b = choose|b: int| #[trigger] self.holds(x, b) && other_chirho.holds(b, c);
                        assert(!bit64(0u64, b));
                    }
                }
            }
            a = a + 1;
        }
        result
    }

    /// Union: row-wise OR.
    pub fn union_chirho(&self, other_chirho: &DenseRelationChirho) -> (r: DenseRelationChirho)
        requires
            self.wf(),
            other_chirho.wf(),
            self.size_chirho <= other_chirho.size_chirho,
        ensures
            r.wf(),
            r.size_chirho == self.size_chirho,
            r.name_chirho@ == "("@ + self.name_chirho@ + " \u{222a} "@ + other_chirho.name_chirho@ + ")"@,
            forall|a: int, b: int| #[trigger] r.holds(a, b) == (a < self.size_chirho && (self.holds(a, b) || other_chirho.holds(a, b))),
    {
        let name = join_names_chirho(&self.name_chirho, " \u{222a} ", &other_chirho.name_chirho);
        let mut result = DenseRelationChirho::named_empty_chirho(name, self.size_chirho);
        let mut i: usize = 0;
        while i < self.size_chirho
            invariant
                i <= self.size_chirho,
                self.wf(),
                other_chirho.wf(),
                self.size_chirho <= other_chirho.size_chirho,
                result.wf(),
                result.size_chirho == self.size_chirho,
                result.name_chirho@ == "("@ + self.name_chirho@ + " \u{222a} "@ + other_chirho.name_chirho@ + ")"@,
                forall|a: int, b: int| #[trigger] result.holds(a, b) == (a < i && (self.holds(a, b) || other_chirho.holds(a, b))),
            decreases self.size_chirho - i,
        {
            let row = self.rows_chirho[i].or_chirho(other_chirho.rows_chirho[i]);
            let ghost prev = result;
            result.rows_chirho.set(i, row);
            proof {
                assert forall|a: int, b: int| #[trigger] result.holds(a, b) == (a < i + 1 && (self.holds(a, b) || other_chirho.holds(a, b))) by {
                    if a == i {
                        lemma_or_bits(self.rows_chirho[a].0, other_chirho.rows_chirho[a].0, b);
                    } else {
                        assert(result.holds(a, b) == prev.holds(a, b));
                    }
                }
            }
            i = i + 1;
        }
        result
    }

    /// Same rows, word for word.
    fn same_rows_chirho(&self, other_chirho: &DenseRelationChirho) -> (r: bool)
        requires
            self.wf(),
            other_chirho.wf(),
            self.size_chirho == other_chirho.size_chirho,
        ensures
            r == forall|i: int| 0 <= i < self.size_chirho ==> #[trigger] self.rows_chirho[i].0 == other_chirho.rows_chirho[i].0,
    {
        let mut i: usize = 0;
        while i < self.size_chirho
            invariant
                i <= self.size_chirho,
                self.wf(),
                other_chirho.wf(),
                self.size_chirho == other_chirho.size_chirho,
                forall|k: int| 0 <= k < i ==> #[trigger] self.rows_chirho[k].0 == other_chirho.rows_chirho[k].0,
            decreases self.size_chirho - i,
        {
            if self.rows_chirho[i].0 != other_chirho.rows_chirho[i].0 {
                return false;
            }
            i = i + 1;
        }
        true
    }

    /// Transitive closure: repeat `t := t ∪ (t ∘ r)` until nothing changes.
    /// The result is the least relation containing this one and closed under
    /// composing with it on the right.
    pub fn transitive_closure_chirho(&self) -> (r: DenseRelationChirho)
        requires
            self.wf(),
            self.within_domain(),
        ensures
            r.wf(),
            r.size_chirho == self.size_chirho,
            closed_under(|a: int, b: int| r.holds(a, b), *self),
            forall|s: spec_fn(int, int) -> bool| #[trigger] closed_under(s, *self)
                ==> forall|a: int, b: int| #[trigger] r.holds(a, b) ==> s(a, b),
    {
        let copy = self.clone_chirho();
        let star_name = append_suffix_chirho(&self.name_chirho, "*");
        let mut result = DenseRelationChirho { name_chirho: star_name, rows_chirho: copy.rows_chirho, size_chirho: copy.size_chirho };
        let mut done = false;
        proof {
            assert forall|a: int, b: int| #[trigger] result.holds(a, b) == self.holds(a, b) by {
                if 0 <= a < self.rows_chirho.len() {
                    assert(result.rows_chirho[a] == self.rows_chirho[a]);
                }
            }
            assert forall|s: spec_fn(int, int) -> bool| #[trigger] closed_under(s, *self)
                implies forall|a: int, b: int| #[trigger] result.holds(a, b) ==> s(a, b) by {
                assert forall|a: int, b: int| #[trigger] result.holds(a, b) implies s(a, b) by {
                    assert(self.holds(a, b));
                }
            }
            lemma_row_total_bound(result.rows_chirho@, self.size_chirho as nat);
        }
        while !done
            invariant
                self.wf(),
                self.within_domain(),
                result.wf(),
                result.size_chirho == self.size_chirho,
                result.within_domain(),
                forall|a: int, b: int| #[trigger] self.holds(a, b) ==> result.holds(a, b),
                forall|s: spec_fn(int, int) -> bool| #[trigger] closed_under(s, *self)
                    ==> forall|a: int, b: int| #[trigger] result.holds(a, b) ==> s(a, b),
                done ==> forall|a: int, b: int, c: int| #[trigger] result.holds(a, b) && #[trigger] self.holds(b, c) ==> result.holds(a, c),
                row_total(result.rows_chirho@, self.size_chirho as nat) <= 64 * self.size_chirho,
            decreases 64 * self.size_chirho - row_total(result.rows_chirho@, self.size_chirho as nat) + if done { 0int } else { 1int },
        {
            let step = result.compose_chirho(self);
            let extended = result.union_chirho(&step);
            proof {
                assert forall|i: int, j: int| 0 <= i < self.size_chirho && #[trigger] bit64(result.rows_chirho[i].0, j)
                    implies bit64(extended.rows_chirho[i].0, j) by {
                    assert(result.holds(i, j));
                    assert(extended.holds(i, j));
                }
                lemma_row_total_mono(result.rows_chirho@, extended.rows_chirho@, self.size_chirho as nat);
                lemma_row_total_bound(extended.rows_chirho@, self.size_chirho as nat);
            }
            if result.same_rows_chirho(&extended) {
                proof {
                    assert forall|a: int, b: int, c: int| #[trigger] result.holds(a, b) && #[trigger] self.holds(b, c) implies result.holds(a, c) by {
                        assert(step.holds(a, c));
                        assert(extended.holds(a, c));
                        assert(result.rows_chirho[a].0 == extended.rows_chirho[a].0);
                    }
                }
                done = true;
            } else {
                let ghost old_result = result;
                let name = result.name_chirho.clone();
                result = DenseRelationChirho { name_chirho: name, rows_chirho: extended.rows_chirho, size_chirho: extended.size_chirho };
                proof {
                    assert forall|a: int, b: int| #[trigger] result.holds(a, b) == (old_result.holds(a, b) || step.holds(a, b)) by {
                        assert(result.holds(a, b) == extended.holds(a, b));
                    }
                    let i = choose|i: int| 0 <= i < self.size_chirho && old_result.rows_chirho[i].0 != result.rows_chirho[i].0;
                    assert(old_result.rows_chirho@[i].0 != result.rows_chirho@[i].0);
                    assert forall|a: int, b: int| #[trigger] result.holds(a, b) implies b < result.size_chirho by {
                        if !old_result.holds(a, b) {
                            let k = choose|k: int| #[trigger] old_result.holds(a, k) && self.holds(k, b);
                        }
                    }
                    assert forall|s: spec_fn(int, int) -> bool| #[trigger] closed_under(s, *self)
                        implies forall|a: int, b: int| #[trigger] result.holds(a, b) ==> s(a, b) by {
                        assert forall|a: int, b: int| #[trigger] result.holds(a, b) implies s(a, b) by {
                            if !old_result.holds(a, b) {
                                let k = choose|k: int| #[trigger] old_result.holds(a, k) && self.holds(k, b);
                                assert(s(a, k));
                            }
                        }
                    }
                }
            }
        }
        result
    }

    /// A copy with the same name, size and rows.
    fn clone_chirho(&self) -> (r: DenseRelationChirho)
        ensures
            r.name_chirho@ == self.name_chirho@,
            r.rows_chirho@ == self.rows_chirho@,
            r.size_chirho == self.size_chirho,
    {
        let mut rows: Vec<BitVec64Chirho> = Vec::new();
        let mut i: usize = 0;
        while i < self.rows_chirho.len()
            invariant
                i <= self.rows_chirho.len(),
                rows@ == self.rows_chirho@.subrange(0, i as int),
            decreases self.rows_chirho.len() - i,
        {
            rows.push(self.rows_chirho[i]);
            i = i + 1;
        }
        assert(rows@ == self.rows_chirho@);
        DenseRelationChirho { name_chirho: self.name_chirho.clone(), rows_chirho: rows, size_chirho: self.size_chirho }
    }

    /// Number of pairs (the counts of the rows added up).
    pub fn len_chirho(&self) -> (r: usize)
        requires
            self.wf(),
        ensures
            r == row_total(self.rows_chirho@, self.size_chirho as nat),
    {
        let mut total: usize = 0;
        let mut i: usize = 0;
        while i < self.size_chirho
            invariant
                i <= self.size_chirho <= 64,
                self.rows_chirho.len() == self.size_chirho,
                total == row_total(self.rows_chirho@, i as nat),
                total <= 64 * i,
            decreases self.size_chirho - i,
        {
            let c = self.rows_chirho[i].popcount_chirho();
            total = total + c as usize;
            i = i + 1;
        }
        total
    }

    /// No pair at all.
    pub fn is_empty_chirho(&self) -> (r: bool)
        requires
            self.wf(),
        ensures
            r == forall|a: int, b: int| !#[trigger] self.holds(a, b),
    {
        let mut i: usize = 0;
        while i < self.size_chirho
            invariant
                i <= self.size_chirho,
                self.wf(),
                forall|a: int, b: int| a < i ==> !#[trigger] self.holds(a, b),
            decreases self.size_chirho - i,
        {
            if !self.rows_chirho[i].is_zero_chirho() {
                proof {
                    lemma_zero_iff_no_bits(self.rows_chirho[i as int].0);
                    let b = choose|b: int| bit64(self.rows_chirho[i as int].0, b);
                    assert(self.holds(i as int, b));
                }
                return false;
            }
            proof {
                lemma_zero_iff_no_bits(0);
            }
            i = i + 1;
        }
        true
    }
}

/// `x` is the first component of some pair of `base`.
pub open spec fn has_first(base: Seq<(u32, u32)>, x: u32) -> bool {
    exists|i: int| 0 <= i < base.len() && #[trigger] base[i].0 == x
}

/// `y` is the second component of some pair of `base`.
pub open spec fn has_second(base: Seq<(u32, u32)>, y: u32) -> bool {
    exists|j: int| 0 <= j < base.len() && #[trigger] base[j].1 == y
}

/// Every element of `rs` pairs a first component of `base` with a second one.
pub open spec fn drawn_from(rs: Seq<(u32, u32)>, base: Seq<(u32, u32)>) -> bool {
    forall|k: int| 0 <= k < rs.len() ==> has_first(base, (#[trigger] rs[k]).0) && has_second(base, rs[k].1)
}

/// Index code of a pair drawn from `base`: a position with its first component
/// times `base.len()`, plus a position with its second component.
spec fn pair_code(p: (u32, u32), base: Seq<(u32, u32)>) -> int {
    let i = choose|i: int| 0 <= i < base.len() && base[i].0 == p.0;
    let j = choose|j: int| 0 <= j < base.len() && base[j].1 == p.1;
    i * base.len() + j
}

proof fn lemma_code_unique(i1: int, j1: int, i2: int, j2: int, n: int)
    requires
        0 <= i1 < n,
        0 <= i2 < n,
        0 <= j1 < n,
        0 <= j2 < n,
        i1 * n + j1 == i2 * n + j2,
    ensures
        i1 == i2 && j1 == j2,
{
    assert((i1 - i2) * n == j2 - j1) by (nonlinear_arith)
        requires
            i1 * n + j1 == i2 * n + j2,
    ;
    if i1 > i2 {
        assert((i1 - i2) * n >= n) by (nonlinear_arith)
            requires
                i1 - i2 >= 1,
                n >= 0,
        ;
    } else if i1 < i2 {
        assert((i2 - i1) * n >= n) by (nonlinear_arith)
            requires
                i2 - i1 >= 1,
                n >= 0,
        ;
        assert((i1 - i2) * n == -((i2 - i1) * n)) by (nonlinear_arith);
    }
}

/// Distinct pairs drawn from `base` number at most `base.len()` squared.
proof fn lemma_drawn_bound(rs: Seq<(u32, u32)>, base: Seq<(u32, u32)>)
    requires
        rs.no_duplicates(),
        drawn_from(rs, base),
    ensures
        rs.len() <= base.len() * base.len(),
{
    let n = base.len() as int;
    let f = |p: (u32, u32)| pair_code(p, base);
    let x = rs.to_set();
    rs.unique_seq_to_set();
    assert forall|p: (u32, u32)| #[trigger] x.contains(p) implies 0 <= f(p) < n * n && has_first(base, p.0)
        && has_second(base, p.1) by {
        let k = choose|k: int| 0 <= k < rs.len() && rs[k] == p;
        assert(rs[k] == p);
        let i = choose|i: int| 0 <= i < base.len() && base[i].0 == p.0;
        let j = choose|j: int| 0 <= j < base.len() && base[j].1 == p.1;
        assert(0 <= i * n + j < n * n) by (nonlinear_arith)
            requires
                0 <= i < n,
                0 <= j < n,
        ;
    }
    assert forall|p: (u32, u32), q: (u32, u32)| x.contains(p) && x.contains(q) && #[trigger] f(p) == #[trigger] f(q) implies p == q by {
        let ip = choose|i: int| 0 <= i < base.len() && base[i].0 == p.0;
        let jp = choose|j: int| 0 <= j < base.len() && base[j].1 == p.1;
        let iq = choose|i: int| 0 <= i < base.len() && base[i].0 == q.0;
        let jq = choose|j: int| 0 <= j < base.len() && base[j].1 == q.1;
        lemma_code_unique(ip, jp, iq, jq, n);
    }
    let y = x.map(f);
    vstd::set_lib::lemma_map_size(x, y, f);
    vstd::set_lib::lemma_int_range(0, n * n);
    assert forall|c: int| #[trigger] y.contains(c) implies vstd::set_lib::set_int_range(0, n * n).contains(c) by {
        let p = choose|p: (u32, u32)| x.contains(p) && f(p) == c;
    }
    vstd::set_lib::lemma_len_subset(y, vstd::set_lib::set_int_range(0, n * n));
}

/// A relation given by its list of pairs, each listed once.
#[derive(Debug, Clone)]
pub struct SparseRelationChirho {
    pub name_chirho: String,
    pub pairs_chirho: Vec<(u32, u32)>,
}

impl SparseRelationChirho {
    /// No pair is listed twice.
    pub open spec fn wf(&self) -> bool {
        self.pairs_chirho@.no_duplicates()
    }

    /// The pairs, as a set.
    pub open spec fn pairs(&self) -> Set<(u32, u32)> {
        self.pairs_chirho@.to_set()
    }

    /// The empty relation.
    pub fn new_chirho(name_chirho: &str) -> (r: Self)
        ensures
            r.wf(),
            r.name_chirho@ == name_chirho@,
            r.pairs() == Set::<(u32, u32)>::empty(),
    {
        let r = Self { name_chirho: String::from_str(name_chirho), pairs_chirho: Vec::new() };
        assert(r.pairs() =~= Set::<(u32, u32)>::empty());
        r
    }

    fn named_empty_chirho(name_chirho: String) -> (r: Self)
        ensures
            r.wf(),
            r.name_chirho == name_chirho,
            r.pairs() == Set::<(u32, u32)>::empty(),
    {
        let r = Self { name_chirho, pairs_chirho: Vec::new() };
        assert(r.pairs() =~= Set::<(u32, u32)>::empty());
        r
    }

    /// Is the pair listed?
    fn has_pair_chirho(&self, a_chirho: u32, b_chirho: u32) -> (r: bool)
        ensures
            r == self.pairs().contains((a_chirho, b_chirho)),
    {
        let mut i: usize = 0;
        while i < self.pairs_chirho.len()
            invariant
                i <= self.pairs_chirho.len(),
                forall|k: int| 0 <= k < i ==> #[trigger] self.pairs_chirho@[k] != (a_chirho, b_chirho),
            decreases self.pairs_chirho.len() - i,
        {
            let (x, y) = self.pairs_chirho[i];
            if x == a_chirho && y == b_chirho {
                assert(self.pairs_chirho@[i as int] == (a_chirho, b_chirho));
                return true;
            }
            i = i + 1;
        }
        false
    }

    /// Add the pair `(a, b)` (no change when it is already there).
    pub fn add_chirho(&mut self, a_chirho: u32, b_chirho: u32)
        requires
            old(self).wf(),
        ensures
            final(self).wf(),
            final(self).name_chirho == old(self).name_chirho,
            final(self).pairs() == old(self).pairs().insert((a_chirho, b_chirho)),
    {
        if !self.has_pair_chirho(a_chirho, b_chirho) {
            self.pairs_chirho.push((a_chirho, b_chirho));
            proof {
                old(self).pairs_chirho@.lemma_push_to_set_commute((a_chirho, b_chirho));
                assert forall|i: int, j: int| 0 <= i < j < self.pairs_chirho.len() implies self.pairs_chirho@[i] != self.pairs_chirho@[j] by {
                    if j == self.pairs_chirho.len() - 1 {
                        assert(old(self).pairs_chirho@.contains(self.pairs_chirho@[i]));
                    }
                }
            }
        }
        assert(self.pairs() =~= old(self).pairs().insert((a_chirho, b_chirho)));
    }

    /// The `b` with `(a, b)` in the relation, each once.
    pub fn query_first_chirho(&self, a_chirho: u32) -> (r: Vec<u32>)
        requires
            self.wf(),
        ensures
            r@.no_duplicates(),
            forall|b: u32| r@.contains(b) == #[trigger] self.pairs().contains((a_chirho, b)),
    {
        let mut out: Vec<u32> = Vec::new();
        let mut i: usize = 0;
        while i < self.pairs_chirho.len()
            invariant
                i <= self.pairs_chirho.len(),
                self.wf(),
                out@.no_duplicates(),
                forall|b: u32| out@.contains(b) == exists|k: int| 0 <= k < i && #[trigger] self.pairs_chirho@[k] == (a_chirho, b),
            decreases self.pairs_chirho.len() - i,
        {
            let (x, y) = self.pairs_chirho[i];
            let ghost prev = out@;
            if x == a_chirho {
                proof {
                    if prev.contains(y) {
                        let k = choose|k: int| 0 <= k < i && #[trigger] self.pairs_chirho@[k] == (a_chirho, y);
                        assert(self.pairs_chirho@[k] == self.pairs_chirho@[i as int]);
                    }
                }
                out.push(y);
            }
            proof {
                assert forall|b: u32| out@.contains(b) == exists|k: int| 0 <= k < i + 1 && #[trigger] self.pairs_chirho@[k] == (a_chirho, b) by {
                    if exists|k: int| 0 <= k < i + 1 && #[trigger] self.pairs_chirho@[k] == (a_chirho, b) {
                        let k = choose|k: int| 0 <= k < i + 1 && #[trigger] self.pairs_chirho@[k] == (a_chirho, b);
                        if k == i {
                            assert(out@[out.len() - 1] == b);
                        } else {
                            assert(prev.contains(b));
                        }
                    }
                    if out@.contains(b) && !prev.contains(b) {
                        assert(self.pairs_chirho@[i as int] == (a_chirho, b));
                    }
                }
            }
            i = i + 1;
        }
        proof {
            assert forall|b: u32| out@.contains(b) == #[trigger] self.pairs().contains((a_chirho, b)) by {
                if self.pairs().contains((a_chirho, b)) {
                    let k = choose|k: int| 0 <= k < self.pairs_chirho.len() && self.pairs_chirho@[k] == (a_chirho, b);
                    assert(self.pairs_chirho@[k] == (a_chirho, b));
                }
            }
        }
        out
    }

    /// The `a` with `(a, b)` in the relation, each once.
    pub fn query_second_chirho(&self, b_chirho: u32) -> (r: Vec<u32>)
        requires
            self.wf(),
        ensures
            r@.no_duplicates(),
            forall|a: u32| r@.contains(a) == #[trigger] self.pairs().contains((a, b_chirho)),
    {
        let mut out: Vec<u32> = Vec::new();
        let mut i: usize = 0;
        while i < self.pairs_chirho.len()
            invariant
                i <= self.pairs_chirho.len(),
                self.wf(),
                out@.no_duplicates(),
                forall|a: u32| out@.contains(a) == exists|k: int| 0 <= k < i && #[trigger] self.pairs_chirho@[k] == (a, b_chirho),
            decreases self.pairs_chirho.len() - i,
        {
            let (x, y) = self.pairs_chirho[i];
            let ghost prev = out@;
            if y == b_chirho {
                proof {
                    if prev.contains(x) {
                        let k = choose|k: int| 0 <= k < i && #[trigger] self.pairs_chirho@[k] == (x, b_chirho);
                        assert(self.pairs_chirho@[k] == self.pairs_chirho@[i as int]);
                    }
                }
                out.push(x);
            }
            proof {
                assert forall|a: u32| out@.contains(a) == exists|k: int| 0 <= k < i + 1 && #[trigger] self.pairs_chirho@[k] == (a, b_chirho) by {
                    if exists|k: int| 0 <= k < i + 1 && #[trigger] self.pairs_chirho@[k] == (a, b_chirho) {
                        let k = choose|k: int| 0 <= k < i + 1 && #[trigger] self.pairs_chirho@[k] == (a, b_chirho);
                        if k == i {
                            assert(out@[out.len() - 1] == a);
                        } else {
                            assert(prev.contains(a));
                        }
                    }
                    if out@.contains(a) && !prev.contains(a) {
                        assert(self.pairs_chirho@[i as int] == (a, b_chirho));
                    }
                }
            }
            i = i + 1;
        }
        proof {
            assert forall|a: u32| out@.contains(a) == #[trigger] self.pairs().contains((a, b_chirho)) by {
                if self.pairs().contains((a, b_chirho)) {
                    let k = choose|k: int| 0 <= k < self.pairs_chirho.len() && self.pairs_chirho@[k] == (a, b_chirho);
                    assert(self.pairs_chirho@[k] == (a, b_chirho));
                }
            }
        }
        out
    }

    /// Composition: `(a, c)` when some `b` has `(a, b)` here and `(b, c)` in `other`.
    pub fn compose_chirho(&self, other_chirho: &SparseRelationChirho) -> (r: SparseRelationChirho)
        requires
            self.wf(),
            other_chirho.wf(),
        ensures
            r.wf(),
            r.name_chirho@ == "("@ + self.name_chirho@ + " \u{2218} "@ + other_chirho.name_chirho@ + ")"@,
            forall|a: u32, c: u32| #[trigger] r.pairs().contains((a, c)) == exists|b: u32|
                #[trigger] self.pairs().contains((a, b)) && other_chirho.pairs().contains((b, c)),
    {
        let name = join_names_chirho(&self.name_chirho, " \u{2218} ", &other_chirho.name_chirho);
        let mut result = SparseRelationChirho::named_empty_chirho(name);
        let mut i: usize = 0;
        while i < self.pairs_chirho.len()
            invariant
                i <= self.pairs_chirho.len(),
                result.wf(),
                result.name_chirho@ == "("@ + self.name_chirho@ + " \u{2218} "@ + other_chirho.name_chirho@ + ")"@,
                forall|x: u32, c: u32| #[trigger] result.pairs().contains((x, c)) == exists|k: int|
                    0 <= k < i && (#[trigger] self.pairs_chirho@[k]).0 == x && other_chirho.pairs().contains((self.pairs_chirho@[k].1, c)),
            decreases self.pairs_chirho.len() - i,
        {
            let (a, b) = self.pairs_chirho[i];
            let mut j: usize = 0;
            while j < other_chirho.pairs_chirho.len()
                invariant
                    i < self.pairs_chirho.len(),
                    self.pairs_chirho@[i as int] == (a, b),
                    j <= other_chirho.pairs_chirho.len(),
                    result.wf(),
                    result.name_chirho@ == "("@ + self.name_chirho@ + " \u{2218} "@ + other_chirho.name_chirho@ + ")"@,
                    forall|x: u32, c: u32| #[trigger] result.pairs().contains((x, c)) == ((exists|k: int|
                        0 <= k < i && (#[trigger] self.pairs_chirho@[k]).0 == x && other_chirho.pairs().contains((self.pairs_chirho@[k].1, c)))
                        || (x == a && exists|l: int| 0 <= l < j && #[trigger] other_chirho.pairs_chirho@[l] == (b, c))),
                decreases other_chirho.pairs_chirho.len() - j,
            {
                let (b2, c) = other_chirho.pairs_chirho[j];
                let ghost prev = result.pairs();
                if b == b2 {
                    result.add_chirho(a, c);
                }
                proof {
                    assert forall|x: u32, cc: u32| #[trigger] result.pairs().contains((x, cc)) == ((exists|k: int|
                        0 <= k < i && (#[trigger] self.pairs_chirho@[k]).0 == x && other_chirho.pairs().contains((self.pairs_chirho@[k].1, cc)))
                        || (x == a && exists|l: int| 0 <= l < j + 1 && #[trigger] other_chirho.pairs_chirho@[l] == (b, cc))) by {
                        if x == a && exists|l: int| 0 <= l < j + 1 && #[trigger] other_chirho.pairs_chirho@[l] == (b, cc) {
                            let l = choose|l: int| 0 <= l < j + 1 && #[trigger] other_chirho.pairs_chirho@[l] == (b, cc);
                            if l < j {
                                assert(prev.contains((x, cc)));
                            }
                        }
                        if x == a && cc == c && b == b2 {
                            assert(other_chirho.pairs_chirho@[j as int] == (b, cc));
                        }
                    }
                }
                j = j + 1;
            }
            proof {
                assert forall|x: u32, c: u32| #[trigger] result.pairs().contains((x, c)) == exists|k: int|
                    0 <= k < i + 1 && (#[trigger] self.pairs_chirho@[k]).0 == x && other_chirho.pairs().contains((self.pairs_chirho@[k].1, c)) by {
                    if x == a && exists|l: int| 0 <= l < other_chirho.pairs_chirho.len() && #[trigger] other_chirho.pairs_chirho@[l] == (b, c) {
                        let l = choose|l: int| 0 <= l < other_chirho.pairs_chirho.len() && #[trigger] other_chirho.pairs_chirho@[l] == (b, c);
                        assert(other_chirho.pairs().contains((b, c)));
                        assert(self.pairs_chirho@[i as int].0 == x);
                    }
                    if exists|k: int| 0 <= k < i + 1 && (#[trigger] self.pairs_chirho@[k]).0 == x && other_chirho.pairs().contains((self.pairs_chirho@[k].1, c)) {
                        let k = choose|k: int| 0 <= k < i + 1 && (#[trigger] self.pairs_chirho@[k]).0 == x && other_chirho.pairs().contains((self.pairs_chirho@[k].1, c));
                        if k == i {
                            let l = choose|l: int| 0 <= l < other_chirho.pairs_chirho.len() && other_chirho.pairs_chirho@[l] == (b, c);
                            assert(other_chirho.pairs_chirho@[l] == (b, c));
                        }
                    }
                }
            }
            i = i + 1;
        }
        proof {
            assert forall|a: u32, c: u32| #[trigger] result.pairs().contains((a, c)) == exists|b: u32|
                #[trigger] self.pairs().contains((a, b)) && other_chirho.pairs().contains((b, c)) by {
                if exists|b: u32| #[trigger] self.pairs().contains((a, b)) && other_chirho.pairs().contains((b, c)) {
                    let b = choose|b: u32| #[trigger] self.pairs().contains((a, b)) && other_chirho.pairs().contains((b, c));
                    let k = choose|k: int| 0 <= k < self.pairs_chirho.len() && self.pairs_chirho@[k] == (a, b);
                    assert(self.pairs_chirho@[k] == (a, b));
                }
                if result.pairs().contains((a, c)) {
                    let k = choose|k: int| 0 <= k < self.pairs_chirho.len() && (#[trigger] self.pairs_chirho@[k]).0 == a && other_chirho.pairs().contains((self.pairs_chirho@[k].1, c));
                    assert(self.pairs().contains((a, self.pairs_chirho@[k].1)));
                }
            }
        }
        result
    }

    /// Union of the two sets of pairs.
    pub fn union_chirho(&self, other_chirho: &SparseRelationChirho) -> (r: SparseRelationChirho)
        requires
            self.wf(),
            other_chirho.wf(),
        ensures
            r.wf(),
            r.name_chirho@ == "("@ + self.name_chirho@ + " \u{222a} "@ + other_chirho.name_chirho@ + ")"@,
            r.pairs() == self.pairs().union(other_chirho.pairs()),
    {
        let name = join_names_chirho(&self.name_chirho, " \u{222a} ", &other_chirho.name_chirho);
        let mut result = SparseRelationChirho::named_empty_chirho(name);
        let mut i: usize = 0;
        while i < self.pairs_chirho.len()
            invariant
                i <= self.pairs_chirho.len(),
                result.wf(),
                result.name_chirho@ == "("@ + self.name_chirho@ + " \u{222a} "@ + other_chirho.name_chirho@ + ")"@,
                result.pairs() == self.pairs_chirho@.subrange(0, i as int).to_set(),
            decreases self.pairs_chirho.len() - i,
        {
            let (a, b) = self.pairs_chirho[i];
            result.add_chirho(a, b);
            proof {
                assert(self.pairs_chirho@.subrange(0, i + 1) == self.pairs_chirho@.subrange(0, i as int).push((a, b)));
                self.pairs_chirho@.subrange(0, i as int).lemma_push_to_set_commute((a, b));
            }
            i = i + 1;
        }
        assert(self.pairs_chirho@.subrange(0, self.pairs_chirho.len() as int) == self.pairs_chirho@);
        let mut j: usize = 0;
        while j < other_chirho.pairs_chirho.len()
            invariant
                j <= other_chirho.pairs_chirho.len(),
                result.wf(),
                result.name_chirho@ == "("@ + self.name_chirho@ + " \u{222a} "@ + other_chirho.name_chirho@ + ")"@,
                result.pairs() == self.pairs().union(other_chirho.pairs_chirho@.subrange(0, j as int).to_set()),
            decreases other_chirho.pairs_chirho.len() - j,
        {
            let (a, b) = other_chirho.pairs_chirho[j];
            result.add_chirho(a, b);
            proof {
                assert(other_chirho.pairs_chirho@.subrange(0, j + 1) == other_chirho.pairs_chirho@.subrange(0, j as int).push((a, b)));
                other_chirho.pairs_chirho@.subrange(0, j as int).lemma_push_to_set_commute((a, b));
                assert(result.pairs() =~= self.pairs().union(other_chirho.pairs_chirho@.subrange(0, j + 1).to_set()));
            }
            j = j + 1;
        }
        assert(other_chirho.pairs_chirho@.subrange(0, other_chirho.pairs_chirho.len() as int) == other_chirho.pairs_chirho@);
        result
    }

    /// Transitive closure: repeat `t := t ∪ (t ∘ r)` until the count stops growing.
    /// The result is the least relation containing this one and closed under
    /// composing with it on the right.
    pub fn transitive_closure_chirho(&self) -> (r: SparseRelationChirho)
        requires
            self.wf(),
        ensures
            r.wf(),
            r.name_chirho@ == self.name_chirho@ + "*"@,
            forall|a: u32, b: u32| #[trigger] self.pairs().contains((a, b)) ==> r.pairs().contains((a, b)),
            forall|a: u32, b: u32, c: u32| #[trigger] r.pairs().contains((a, b)) && #[trigger] self.pairs().contains((b, c))
                ==> r.pairs().contains((a, c)),
            forall|s: Set<(u32, u32)>| #[trigger] sparse_closed_under(s, self.pairs()) ==> r.pairs().subset_of(s),
    {
        let star_name = append_suffix_chirho(&self.name_chirho, "*");
        let mut result = SparseRelationChirho { name_chirho: star_name, pairs_chirho: copy_pairs_chirho(&self.pairs_chirho) };
        let ghost base = self.pairs_chirho@;
        let ghost n = base.len();
        proof {
            assert(result.pairs_chirho@ == base);
            assert(drawn_from(base, base)) by {
                assert forall|k: int| 0 <= k < base.len() implies has_first(base, (#[trigger] base[k]).0) && has_second(base, base[k].1) by {
                    assert(base[k].0 == base[k].0);
                    assert(base[k].1 == base[k].1);
                }
            }
            lemma_drawn_bound(result.pairs_chirho@, base);
        }
        let mut done = false;
        while !done
            invariant
                self.wf(),
                base == self.pairs_chirho@,
                n == base.len(),
                result.wf(),
                result.name_chirho@ == self.name_chirho@ + "*"@,
                drawn_from(result.pairs_chirho@, base),
                result.pairs_chirho@.len() <= n * n,
                forall|a: u32, b: u32| #[trigger] self.pairs().contains((a, b)) ==> result.pairs().contains((a, b)),
                forall|s: Set<(u32, u32)>| #[trigger] sparse_closed_under(s, self.pairs()) ==> result.pairs().subset_of(s),
                done ==> forall|a: u32, b: u32, c: u32| #[trigger] result.pairs().contains((a, b)) && #[trigger] self.pairs().contains((b, c))
                    ==> result.pairs().contains((a, c)),
            decreases n * n - result.pairs_chirho@.len() + if done { 0int } else { 1int },
        {
            let step = result.compose_chirho(self);
            let extended = result.union_chirho(&step);
            proof {
                vstd::seq_lib::seq_to_set_is_finite(result.pairs_chirho@);
                vstd::seq_lib::seq_to_set_is_finite(extended.pairs_chirho@);
                result.pairs_chirho@.unique_seq_to_set();
                extended.pairs_chirho@.unique_seq_to_set();
                vstd::set_lib::lemma_len_subset(result.pairs(), extended.pairs());
            }
            if extended.pairs_chirho.len() == result.pairs_chirho.len() {
                proof {
                    vstd::set_lib::lemma_subset_equality(result.pairs(), extended.pairs());
                    assert forall|a: u32, b: u32, c: u32| #[trigger] result.pairs().contains((a, b)) && #[trigger] self.pairs().contains((b, c))
                        implies result.pairs().contains((a, c)) by {
                        assert(step.pairs().contains((a, c)));
                    }
                }
                done = true;
            } else {
                let ghost old_result = result;
                let name = result.name_chirho.clone();
                result = SparseRelationChirho { name_chirho: name, pairs_chirho: extended.pairs_chirho };
                proof {
                    assert(result.pairs() == extended.pairs());
                    assert(drawn_from(result.pairs_chirho@, base)) by {
                        assert forall|k: int| 0 <= k < result.pairs_chirho@.len() implies has_first(base, (#[trigger] result.pairs_chirho@[k]).0)
                            && has_second(base, result.pairs_chirho@[k].1) by {
                            let p = result.pairs_chirho@[k];
                            assert(result.pairs().contains(p));
                            if old_result.pairs().contains(p) {
                                let m = choose|m: int| 0 <= m < old_result.pairs_chirho@.len() && old_result.pairs_chirho@[m] == p;
                                assert(old_result.pairs_chirho@[m] == p);
                                assert(has_first(base, p.0) && has_second(base, p.1));
                            } else {
                                assert(step.pairs().contains((p.0, p.1)));
                                let b = choose|b: u32| #[trigger] old_result.pairs().contains((p.0, b)) && self.pairs().contains((b, p.1));
                                let m = choose|m: int| 0 <= m < old_result.pairs_chirho@.len() && old_result.pairs_chirho@[m] == (p.0, b);
                                assert(old_result.pairs_chirho@[m] == (p.0, b));
                                assert(has_first(base, p.0));
                                let m2 = choose|m2: int| 0 <= m2 < base.len() && base[m2] == (b, p.1);
                                assert(base[m2].1 == p.1);
                                assert(has_second(base, p.1));
                            }
                        }
                    }
                    lemma_drawn_bound(result.pairs_chirho@, base);
                    assert forall|s: Set<(u32, u32)>| #[trigger] sparse_closed_under(s, self.pairs()) implies result.pairs().subset_of(s) by {
                        assert forall|p: (u32, u32)| result.pairs().contains(p) implies s.contains(p) by {
                            if !old_result.pairs().contains(p) {
                                assert(step.pairs().contains((p.0, p.1)));
                                let b = choose|b: u32| #[trigger] old_result.pairs().contains((p.0, b)) && self.pairs().contains((b, p.1));
                                assert(s.contains((p.0, b)));
                            }
                        }
                    }
                }
            }
        }
        result
    }

    /// Number of pairs.
    pub fn len_chirho(&self) -> (r: usize)
        requires
            self.wf(),
        ensures
            r == self.pairs().len(),
    {
        proof {
            self.pairs_chirho@.unique_seq_to_set();
        }
        self.pairs_chirho.len()
    }

    /// No pair at all.
    pub fn is_empty_chirho(&self) -> (r: bool)
        requires
            self.wf(),
        ensures
            r == (self.pairs() == Set::<(u32, u32)>::empty()),
    {
        proof {
            self.pairs_chirho@.unique_seq_to_set();
            if self.pairs_chirho.len() > 0 {
                assert(self.pairs().contains(self.pairs_chirho@[0]));
            } else {
                assert(self.pairs() =~= Set::<(u32, u32)>::empty());
            }
        }
        self.pairs_chirho.len() == 0
    }
}

/// A copy of a list of pairs.
fn copy_pairs_chirho(v: &Vec<(u32, u32)>) -> (r: Vec<(u32, u32)>)
    ensures
        r@ == v@,
{
    let mut out: Vec<(u32, u32)> = Vec::new();
    let mut i: usize = 0;
    while i < v.len()
        invariant
            i <= v.len(),
            out@ == v@.subrange(0, i as int),
        decreases v.len() - i,
    {
        out.push(v[i]);
        i = i + 1;
    }
    assert(out@ == v@);
    out
}

/// `s` contains `r` and is closed under composing with `r` on the right.
pub open spec fn sparse_closed_under(s: Set<(u32, u32)>, r: Set<(u32, u32)>) -> bool {
    &&& r.subset_of(s)
    &&& forall|a: u32, b: u32, c: u32| #[trigger] s.contains((a, b)) && #[trigger] r.contains((b, c)) ==> s.contains((a, c))
}


/// The positions below `limit` of the set bits of `mask`, in increasing order.
fn collect_bits_chirho(mask: BitVec64Chirho, limit: usize) -> (r: Vec<usize>)
    requires
        limit <= 64,
    ensures
        forall|k: int| 0 <= k < r.len() ==> #[trigger] r[k] < limit && bit64(mask.0, r[k] as int),
        forall|k: int, l: int| 0 <= k < l < r.len() ==> #[trigger] r[k] < #[trigger] r[l],
        forall|b: int| 0 <= b < limit && #[trigger] bit64(mask.0, b) ==> r@.contains(b as usize),
{
    let mut out: Vec<usize> = Vec::new();
    let mut j: usize = 0;
    while j < limit
        invariant
            j <= limit <= 64,
            forall|k: int| 0 <= k < out.len() ==> #[trigger] out[k] < j && bit64(mask.0, out[k] as int),
            forall|k: int, l: int| 0 <= k < l < out.len() ==> #[trigger] out[k] < #[trigger] out[l],
            forall|b: int| 0 <= b < j && #[trigger] bit64(mask.0, b) ==> out@.contains(b as usize),
        decreases limit - j,
    {
        if mask.test_bit_chirho(j as u32) {
            let ghost prev = out@;
            out.push(j);
            proof {
                assert forall|b: int| 0 <= b < j + 1 && #[trigger] bit64(mask.0, b) implies out@.contains(b as usize) by {
                    if b == j {
                        assert(out@[out.len() - 1] == j);
                    } else {
                        let idx = choose|idx: int| 0 <= idx < prev.len() && prev[idx] == b as usize;
                        assert(out@[idx] == b as usize);
                    }
                }
            }
        }
        j = j + 1;
    }
    out
}

/// `"(" + left + sep + right + ")"`.
fn join_names_chirho(left: &String, sep: &str, right: &String) -> (r: String)
    ensures
        r@ == "("@ + left@ + sep@ + right@ + ")"@,
{
    let mut s = String::from_str("(");
    s.append(left.as_str());
    s.append(sep);
    s.append(right.as_str());
    s.append(")");
    s
}

/// `base + suffix`.
fn append_suffix_chirho(base: &String, suffix: &str) -> (r: String)
    ensures
        r@ == base@ + suffix@,
{
    let mut s = String::from_str(base.as_str());
    s.append(suffix);
    s
}

} // verus!
