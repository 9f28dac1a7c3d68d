//! Hierarchical bit-vector domains for value spaces larger than one word.
//! A root word records which leaves are non-empty; the leaves hold the values.
//! Intersection first intersects the roots, so sparse domains skip most leaves.

use vstd::prelude::*;
use vstd::std_specs::bits::u64_trailing_zeros;
use vstd::relations::injective_on;
use vstd::set_lib::{lemma_map_size, lemma_set_disjoint_lens, set_int_range, lemma_int_range};
use crate::bits::{
    set64, lemma_popcount_card, bit64, popcount64, low_mask64, popcount_u64, lemma_and_bits, lemma_or_bits, lemma_shl_bits,
    lemma_zero_iff_no_bits, lemma_clear_lowest, lemma_low_mask_bits, lemma_popcount64_bound,
};
use crate::counting::{count_in, window_set, lemma_count_in_card, lemma_count_in_split, lemma_count_in_none, lemma_count_words};
use crate::hardware::{popcount_words, BitVec64Chirho, BitVec256Chirho, BitVec512Chirho, bit256, bit512, is_zero256, popcount256};

verus! {

/// Sum of the counts of the leaves `0..n` whose root bit is set.
pub open spec fn count_leaves64(root: u64, leaves: Seq<BitVec64Chirho>, n: nat) -> nat
    decreases n,
{
    if n == 0 {
        0
    } else {
        count_leaves64(root, leaves, (n - 1) as nat) + if bit64(root, n - 1) {
            popcount64(leaves[n - 1].0)
        } else {
            0
        }
    }
}

pub proof fn lemma_count_leaves64_bound(root: u64, leaves: Seq<BitVec64Chirho>, n: nat)
    ensures
        count_leaves64(root, leaves, n) <= 64 * n,
    decreases n,
{
    if n > 0 {
        lemma_count_leaves64_bound(root, leaves, (n - 1) as nat);
        lemma_popcount64_bound(leaves[n - 1].0);
    }
}

/// Values below `64 * n` of a two-level domain with these root and leaves.
pub open spec fn values_below64(root: u64, leaves: Seq<BitVec64Chirho>, n: nat) -> Set<int> {
    Set::new(|v: int| 0 <= v < 64 * n && bit64(root, v / 64) && bit64(leaves[v / 64].0, v % 64))
}

/// Summing the leaf counts under the root counts the values.
pub proof fn lemma_count_leaves64_card(root: u64, leaves: Seq<BitVec64Chirho>, n: nat)
    ensures
        values_below64(root, leaves, n).finite(),
        values_below64(root, leaves, n).len() == count_leaves64(root, leaves, n),
    decreases n,
{
    if n == 0 {
        assert(values_below64(root, leaves, 0) =~= Set::<int>::empty());
    } else {
        let m = (n - 1) as nat;
        lemma_count_leaves64_card(root, leaves, m);
        let lo = values_below64(root, leaves, m);
        if bit64(root, m as int) {
            let bits = set64(leaves[m as int].0);
            let f = |b: int| 64 * m + b;
            let blk = bits.map(f);
            lemma_popcount_card(leaves[m as int].0);
            assert(injective_on(f, bits));
            lemma_map_size(bits, blk, f);
            assert forall|v: int| #[trigger] values_below64(root, leaves, n).contains(v) == (lo + blk).contains(v) by {
                if 64 * m <= v < 64 * n {
                    assert(v / 64 == m && v % 64 == v - 64 * m);
                    if bits.contains(v - 64 * m) {
                        assert(f(v - 64 * m) == v);
                    }
                }
                if blk.contains(v) {
                    let b = choose|b: int| bits.contains(b) && f(b) == v;
                    assert(v / 64 == m && v % 64 == b);
                }
            }
            assert(values_below64(root, leaves, n) =~= lo + blk);
            assert(lo.disjoint(blk));
            lemma_set_disjoint_lens(lo, blk);
        } else {
            assert forall|v: int| #[trigger] values_below64(root, leaves, n).contains(v) == lo.contains(v) by {
                if 64 * m <= v < 64 * n {
                    assert(v / 64 == m);
                }
            }
            assert(values_below64(root, leaves, n) =~= lo);
        }
    }
}

/// Two-level domain of 64 x 64 = 4096 values.
#[derive(Clone, Debug)]
pub struct Hierarchical4kChirho {
    /// Bit `i` set: leaf `i` is non-empty.
    pub root_chirho: BitVec64Chirho,
    /// Value `64 * i + j` is bit `j` of leaf `i`.
    pub leaves_chirho: Box<[BitVec64Chirho; 64]>,
}

impl Hierarchical4kChirho {
    /// Value `v` is in the domain (its leaf is marked in the root and holds it).
    pub open spec fn has(&self, v: int) -> bool {
        0 <= v < 4096 && bit64(self.root_chirho.0, v / 64) && bit64(self.leaves_chirho[v / 64].0, v % 64)
    }

    /// The root marks exactly the non-empty leaves.
    pub open spec fn wf(&self) -> bool {
        forall|i: int| 0 <= i < 64 ==> (bit64(self.root_chirho.0, i) <==> #[trigger] self.leaves_chirho[i].0 != 0)
    }

    /// The values of the domain.
    pub open spec fn values(&self) -> Set<int> {
        Set::new(|v: int| self.has(v))
    }

    /// Number of values in the domain.
    pub open spec fn count_spec(&self) -> nat {
        self.values().len()
    }

    /// The values are finitely many, as many as the leaves marked in the
    /// root hold between them.
    pub proof fn lemma_count_values(&self)
        ensures
            self.values().finite(),
            self.count_spec() == count_leaves64(self.root_chirho.0, self.leaves_chirho@, 64),
    {
        lemma_count_leaves64_card(self.root_chirho.0, self.leaves_chirho@, 64);
        assert(self.values() =~= values_below64(self.root_chirho.0, self.leaves_chirho@, 64));
    }

    /// The empty domain.
    pub fn empty_chirho() -> (r: Self)
        ensures
            r.root_chirho.0 == 0,
            forall|i: int| 0 <= i < 64 ==> #[trigger] r.leaves_chirho[i].0 == 0,
            r.wf(),
            forall|v: int| !r.has(v),
    {
        let z = BitVec64Chirho(0);
        let r = Self { root_chirho: z, leaves_chirho: Box::new([z; 64]) };
        proof {
            lemma_zero_iff_no_bits(0);
        }
        r
    }

    /// All 4096 values.
    pub fn full_chirho() -> (r: Self)
        ensures
            r.wf(),
            forall|v: int| r.has(v) == (0 <= v < 4096),
    {
        let o = BitVec64Chirho(u64::MAX);
        let r = Self { root_chirho: o, leaves_chirho: Box::new([o; 64]) };
        proof {
            assert forall|v: int| r.has(v) == (0 <= v < 4096) by {
                if 0 <= v < 4096 {
                    lemma_low_mask_bits(64, v / 64);
                    lemma_low_mask_bits(64, v % 64);
                }
            }
            assert forall|i: int| 0 <= i < 64 implies (bit64(r.root_chirho.0, i) <==> #[trigger] r.leaves_chirho[i].0 != 0) by {
                lemma_low_mask_bits(64, i);
            }
        }
        r
    }

    /// The values `0..n` (all of them when `n` is 4096 or more).
    pub fn range_chirho(n_chirho: u32) -> (r: Self)
        requires
            n_chirho / 64 <= 64,
        ensures
            r.wf(),
            forall|v: int| r.has(v) == (0 <= v < n_chirho && v < 4096),
            r.count_spec() == if n_chirho < 4096 { n_chirho as nat } else { 4096 },
    {
        let full_leaves_chirho = n_chirho / 64;
        let remainder_chirho = n_chirho % 64;
        let z = BitVec64Chirho(0);
        let mut leaves = [z; 64];
        let mut root: u64 = 0;
        let mut i: usize = 0;
        proof {
            lemma_zero_iff_no_bits(0);
        }
        while i < full_leaves_chirho as usize
            invariant
                i <= full_leaves_chirho <= 64,
                forall|j: int| #[trigger] bit64(root, j) == (0 <= j < i),
                forall|j: int| 0 <= j < 64 ==> #[trigger] leaves[j].0 == if j < i { u64::MAX } else { 0 },
            decreases full_leaves_chirho - i,
        {
            leaves[i] = BitVec64Chirho(u64::MAX);
            let ghost prev = root;
            root = root | (1u64 << i);
            proof {
                assert forall|j: int| #[trigger] bit64(root, j) == (0 <= j < i + 1) by {
                    lemma_or_bits(prev, 1u64 << i, j);
                    lemma_shl_bits(i as u64, j);
                }
            }
            i = i + 1;
        }
        if remainder_chirho > 0 && (full_leaves_chirho as usize) < 64 {
            let f = full_leaves_chirho as usize;
            assert((1u64 << remainder_chirho) >= 1) by (bit_vector)
                requires
                    remainder_chirho < 64,
            ;
            let mask_chirho = (1u64 << remainder_chirho) - 1;
            assert(mask_chirho == low_mask64(remainder_chirho as u64));
            leaves[f] = BitVec64Chirho(mask_chirho);
            let ghost prev = root;
            root = root | (1u64 << f);
            proof {
                assert forall|j: int| #[trigger] bit64(root, j) == (0 <= j <= f) by {
                    lemma_or_bits(prev, 1u64 << f, j);
                    lemma_shl_bits(f as u64, j);
                }
                lemma_low_mask_bits(remainder_chirho as u64, 0);
            }
        }
        let r = Self { root_chirho: BitVec64Chirho(root), leaves_chirho: Box::new(leaves) };
        proof {
            assert forall|v: int| r.has(v) == (0 <= v < n_chirho && v < 4096) by {
                if 0 <= v < 4096 {
                    let k = v / 64;
                    if k < full_leaves_chirho {
                        lemma_low_mask_bits(64, v % 64);
                    } else if k == full_leaves_chirho && remainder_chirho > 0 {
                        lemma_low_mask_bits(remainder_chirho as u64, v % 64);
                    }
                }
            }
            assert forall|j: int| 0 <= j < 64 implies (bit64(r.root_chirho.0, j) <==> #[trigger] r.leaves_chirho[j].0 != 0) by {
                if j < full_leaves_chirho {
                    lemma_low_mask_bits(64, 0);
                }
            }
            let top: int = if n_chirho < 4096 { n_chirho as int } else { 4096 };
            assert(r.values() =~= set_int_range(0, top));
            lemma_int_range(0, top);
        }
        r
    }

    /// Exactly the value `value_chirho` (which must be below 4096).
    pub fn singleton_chirho(value_chirho: u32) -> (r: Self)
        requires
            value_chirho < 4096,
        ensures
            r.wf(),
            forall|v: int| r.has(v) == (v == value_chirho),
    {
        let leaf_idx_chirho = (value_chirho / 64) as usize;
        let bit_idx_chirho = value_chirho % 64;
        let z = BitVec64Chirho(0);
        let mut leaves = [z; 64];
        leaves[leaf_idx_chirho] = BitVec64Chirho(1u64 << bit_idx_chirho);
        let r = Self {
            root_chirho: BitVec64Chirho(1u64 << leaf_idx_chirho),
            leaves_chirho: Box::new(leaves),
        };
        proof {
            lemma_zero_iff_no_bits(0);
            assert forall|v: int| r.has(v) == (v == value_chirho) by {
                if 0 <= v < 4096 {
                    lemma_shl_bits(leaf_idx_chirho as u64, v / 64);
                    lemma_shl_bits(bit_idx_chirho as u64, v % 64);
                }
            }
            assert forall|j: int| 0 <= j < 64 implies (bit64(r.root_chirho.0, j) <==> #[trigger] r.leaves_chirho[j].0 != 0) by {
                lemma_shl_bits(leaf_idx_chirho as u64, j);
                if j == leaf_idx_chirho {
                    lemma_shl_bits(bit_idx_chirho as u64, bit_idx_chirho as int);
                }
            }
        }
        r
    }

    /// Is `value_chirho` in the domain?
    pub fn contains_chirho(&self, value_chirho: u32) -> (r: bool)
        ensures
            r == self.has(value_chirho as int),
    {
        if value_chirho >= 4096 {
            return false;
        }
        let leaf_idx_chirho = (value_chirho / 64) as usize;
        let bit_idx_chirho = value_chirho % 64;
        if !self.root_chirho.test_bit_chirho(leaf_idx_chirho as u32) {
            return false;
        }
        self.leaves_chirho[leaf_idx_chirho].test_bit_chirho(bit_idx_chirho)
    }

    /// Values in both domains; only leaves marked in both roots are visited.
    pub fn intersect_chirho(&self, other_chirho: &Self) -> (r: Self)
        ensures
            r.wf(),
            forall|v: int| r.has(v) == (self.has(v) && other_chirho.has(v)),
    {
        let candidate_mask_chirho = self.root_chirho.and_chirho(other_chirho.root_chirho);
        if candidate_mask_chirho.is_zero_chirho() {
            let e = Self::empty_chirho();
            proof {
                assert forall|v: int| e.has(v) == (self.has(v) && other_chirho.has(v)) by {
                    lemma_and_bits(self.root_chirho.0, other_chirho.root_chirho.0, v / 64);
                    lemma_zero_iff_no_bits(0);
                }
            }
            return e;
        }
        let cand = candidate_mask_chirho.0;
        let z = BitVec64Chirho(0);
        let mut new_leaves = [z; 64];
        let mut new_root: u64 = 0;
        let mut bits_chirho = cand;
        proof {
            lemma_zero_iff_no_bits(0);
        }
        while bits_chirho != 0
            invariant
                cand == self.root_chirho.0 & other_chirho.root_chirho.0,
                forall|j: int| #[trigger] bit64(bits_chirho, j) ==> bit64(cand, j),
                forall|j: int|
                    0 <= j < 64 && !bit64(bits_chirho, j) ==> #[trigger] new_leaves[j].0 == if bit64(cand, j) {
                        self.leaves_chirho[j].0 & other_chirho.leaves_chirho[j].0
                    } else {
                        0
                    },
                forall|j: int|
                    0 <= j < 64 && bit64(bits_chirho, j) ==> #[trigger] new_leaves[j].0 == 0,
                forall|j: int|
                    #[trigger] bit64(new_root, j) == (0 <= j < 64 && !bit64(bits_chirho, j)
                        && bit64(cand, j) && (self.leaves_chirho[j].0 & other_chirho.leaves_chirho[j].0) != 0),
            decreases bits_chirho,
        {
            proof {
                lemma_clear_lowest(bits_chirho);
            }
            let i_chirho = bits_chirho.trailing_zeros() as usize;
            let ghost old_bits = bits_chirho;
            bits_chirho = bits_chirho & (bits_chirho - 1);
            let leaf_result_chirho = self.leaves_chirho[i_chirho].and_chirho(
                other_chirho.leaves_chirho[i_chirho],
            );
            new_leaves[i_chirho] = leaf_result_chirho;
            let ghost prev_root = new_root;
            if !leaf_result_chirho.is_zero_chirho() {
                new_root = new_root | (1u64 << i_chirho);
            }
            proof {
                assert forall|j: int| #[trigger] bit64(new_root, j) == (0 <= j < 64 && !bit64(bits_chirho, j)
                    && bit64(cand, j) && (self.leaves_chirho[j].0 & other_chirho.leaves_chirho[j].0) != 0) by {
                    lemma_or_bits(prev_root, 1u64 << i_chirho, j);
                    lemma_shl_bits(i_chirho as u64, j);
                }
            }
        }
        let r = Self { root_chirho: BitVec64Chirho(new_root), leaves_chirho: Box::new(new_leaves) };
        proof {
            assert forall|v: int| r.has(v) == (self.has(v) && other_chirho.has(v)) by {
                if 0 <= v < 4096 {
                    lemma_and_bits(self.root_chirho.0, other_chirho.root_chirho.0, v / 64);
                    lemma_and_bits(self.leaves_chirho[v / 64].0, other_chirho.leaves_chirho[v / 64].0, v % 64);
                    lemma_zero_iff_no_bits(self.leaves_chirho[v / 64].0 & other_chirho.leaves_chirho[v / 64].0);
                }
            }
        }
        r
    }

    /// Values in either domain (exact when both roots mark exactly their non-empty leaves).
    pub fn union_chirho(&self, other_chirho: &Self) -> (r: Self)
        ensures
            r.root_chirho.0 == self.root_chirho.0 | other_chirho.root_chirho.0,
            forall|i: int|
                0 <= i < 64 ==> #[trigger] r.leaves_chirho[i].0 == if bit64(r.root_chirho.0, i) {
                    self.leaves_chirho[i].0 | other_chirho.leaves_chirho[i].0
                } else {
                    0
                },
            self.wf() && other_chirho.wf() ==> r.wf(),
            self.wf() && other_chirho.wf() ==> forall|v: int| r.has(v) == (self.has(v) || other_chirho.has(v)),
    {
        let new_root_chirho = self.root_chirho.or_chirho(other_chirho.root_chirho);
        let rt = new_root_chirho.0;
        let z = BitVec64Chirho(0);
        let mut new_leaves = [z; 64];
        let mut bits_chirho = rt;
        proof {
            lemma_zero_iff_no_bits(0);
        }
        while bits_chirho != 0
            invariant
                forall|j: int| #[trigger] bit64(bits_chirho, j) ==> bit64(rt, j),
                forall|j: int|
                    0 <= j < 64 && !bit64(bits_chirho, j) ==> #[trigger] new_leaves[j].0 == if bit64(rt, j) {
                        self.leaves_chirho[j].0 | other_chirho.leaves_chirho[j].0
                    } else {
                        0
                    },
                forall|j: int|
                    0 <= j < 64 && bit64(bits_chirho, j) ==> #[trigger] new_leaves[j].0 == 0,
            decreases bits_chirho,
        {
            proof {
                lemma_clear_lowest(bits_chirho);
            }
            let i_chirho = bits_chirho.trailing_zeros() as usize;
            bits_chirho = bits_chirho & (bits_chirho - 1);
            new_leaves[i_chirho] = self.leaves_chirho[i_chirho].or_chirho(
                other_chirho.leaves_chirho[i_chirho],
            );
        }
        let r = Self { root_chirho: new_root_chirho, leaves_chirho: Box::new(new_leaves) };
        proof {
            if self.wf() && other_chirho.wf() {
                assert forall|v: int| r.has(v) == (self.has(v) || other_chirho.has(v)) by {
                    if 0 <= v < 4096 {
                        let k = v / 64;
                        lemma_or_bits(self.root_chirho.0, other_chirho.root_chirho.0, k);
                        lemma_or_bits(self.leaves_chirho[k].0, other_chirho.leaves_chirho[k].0, v % 64);
                        lemma_zero_iff_no_bits(self.leaves_chirho[k].0);
                        lemma_zero_iff_no_bits(other_chirho.leaves_chirho[k].0);
                    }
                }
                assert forall|i: int| 0 <= i < 64 implies (bit64(r.root_chirho.0, i) <==> #[trigger] r.leaves_chirho[i].0 != 0) by {
                    lemma_or_bits(self.root_chirho.0, other_chirho.root_chirho.0, i);
                    lemma_zero_iff_no_bits(self.leaves_chirho[i].0);
                    lemma_zero_iff_no_bits(other_chirho.leaves_chirho[i].0);
                    lemma_zero_iff_no_bits(self.leaves_chirho[i].0 | other_chirho.leaves_chirho[i].0);
                    if self.leaves_chirho[i].0 != 0 {
                        let b = choose|b: int| bit64(self.leaves_chirho[i].0, b);
                        lemma_or_bits(self.leaves_chirho[i].0, other_chirho.leaves_chirho[i].0, b);
                    }
                    if other_chirho.leaves_chirho[i].0 != 0 {
                        let b = choose|b: int| bit64(other_chirho.leaves_chirho[i].0, b);
                        lemma_or_bits(self.leaves_chirho[i].0, other_chirho.leaves_chirho[i].0, b);
                    }
                }
            }
        }
        r
    }

    /// No leaf is marked in the root.
    pub fn is_empty_chirho(&self) -> (r: bool)
        ensures
            r == (self.root_chirho.0 == 0),
            self.wf() ==> (r <==> forall|v: int| !self.has(v)),
    {
        let r = self.root_chirho.is_zero_chirho();
        proof {
            lemma_zero_iff_no_bits(self.root_chirho.0);
            if self.wf() && !r {
                let i = choose|i: int| bit64(self.root_chirho.0, i);
                lemma_zero_iff_no_bits(self.leaves_chirho[i].0);
                let j = choose|j: int| bit64(self.leaves_chirho[i].0, j);
                assert(self.has(64 * i + j));
            }
        }
        r
    }

    /// Number of values in the domain.
    pub fn count_chirho(&self) -> (r: u32)
        ensures
            r == self.count_spec(),
    {
        let mut count_chirho: u32 = 0;
        let mut i: usize = 0;
        while i < 64
            invariant
                i <= 64,
                count_chirho == count_leaves64(self.root_chirho.0, self.leaves_chirho@, i as nat),
            decreases 64 - i,
        {
            proof {
                lemma_count_leaves64_bound(self.root_chirho.0, self.leaves_chirho@, (i + 1) as nat);
            }
            if self.root_chirho.test_bit_chirho(i as u32) {
                count_chirho = count_chirho + self.leaves_chirho[i].popcount_chirho();
            }
            i = i + 1;
        }
        proof {
            self.lemma_count_values();
        }
        count_chirho
    }

    /// All values of the domain in increasing order.
    pub fn iter_chirho(&self) -> (r: Vec<u32>)
        ensures
            forall|k: int| 0 <= k < r.len() ==> self.has(#[trigger] r[k] as int),
            forall|k: int, l: int| 0 <= k < l < r.len() ==> #[trigger] r[k] < #[trigger] r[l],
            forall|v: int| self.has(v) ==> r@.contains(v as u32),
    {
        let mut out: Vec<u32> = Vec::new();
        let mut i: u32 = 0;
        while i < 64
            invariant
                i <= 64,
                forall|k: int| 0 <= k < out.len() ==> self.has(#[trigger] out[k] as int) && out[k] < 64 * i,
                forall|k: int, l: int| 0 <= k < l < out.len() ==> #[trigger] out[k] < #[trigger] out[l],
                forall|v: int| 0 <= v < 64 * i && self.has(v) ==> out@.contains(v as u32),
            decreases 64 - i,
        {
            if self.root_chirho.test_bit_chirho(i) {
                let leaf = self.leaves_chirho[i as usize];
                let mut j: u32 = 0;
                while j < 64
                    invariant
                        i < 64,
                        j <= 64,
                        bit64(self.root_chirho.0, i as int),
                        leaf == self.leaves_chirho[i as int],
                        forall|k: int| 0 <= k < out.len() ==> self.has(#[trigger] out[k] as int) && out[k] < 64 * i + j,
                        forall|k: int, l: int| 0 <= k < l < out.len() ==> #[trigger] out[k] < #[trigger] out[l],
                        forall|v: int| 0 <= v < 64 * i + j && self.has(v) ==> out@.contains(v as u32),
                    decreases 64 - j,
                {
                    if leaf.test_bit_chirho(j) {
                        let v = 64 * i + j;
                        let ghost prev = out@;
                        out.push(v);
                        proof {
                            assert forall|w: int| 0 <= w < 64 * i + j + 1 && self.has(w) implies out@.contains(w as u32) by {
                                if w == v {
                                    assert(out@[out.len() - 1] == v);
                                } else {
                                    let idx = choose|idx: int| 0 <= idx < prev.len() && prev[idx] == w as u32;
                                    assert(out@[idx] == w as u32);
                                }
                            }
                        }
                    } else {
                        proof {
                            assert forall|w: int| 0 <= w < 64 * i + j + 1 && self.has(w) implies out@.contains(w as u32) by {
                                if w == 64 * i + j {
                                    assert(w / 64 == i && w % 64 == j);
                                }
                            }
                        }
                    }
                    j = j + 1;
                }
            } else {
                proof {
                    assert forall|w: int| 0 <= w < 64 * i + 64 && self.has(w) implies out@.contains(w as u32) by {
                        if w >= 64 * i {
                            assert(w / 64 == i);
                        }
                    }
                }
            }
            i = i + 1;
        }
        out
    }
}


/// Value `v` is marked on all three levels of a three-level domain.
pub open spec fn has3(root: u64, index: [BitVec64Chirho; 64], leaves: [[BitVec64Chirho; 64]; 64], v: int) -> bool {
    &&& 0 <= v < 262144
    &&& bit64(root, v / 4096)
    &&& bit64(index[v / 4096].0, (v % 4096) / 64)
    &&& bit64(leaves[v / 4096][(v % 4096) / 64].0, v % 64)
}

/// Three-level domain of 64 x 64 x 64 = 262,144 values.
#[derive(Clone)]
pub struct Hierarchical256kChirho {
    /// Bit `i` set: block `i` has a non-empty leaf.
    pub root_chirho: BitVec64Chirho,
    /// Bit `j` of `index[i]` set: leaf `(i, j)` is non-empty.
    pub index_chirho: Box<[BitVec64Chirho; 64]>,
    /// Value `4096 * i + 64 * j + b` is bit `b` of leaf `(i, j)`.
    pub leaves_chirho: Box<[[BitVec64Chirho; 64]; 64]>,
}

impl Hierarchical256kChirho {
    /// Value `v` is in the domain (marked on all three levels).
    pub open spec fn has(&self, v: int) -> bool {
        has3(self.root_chirho.0, *self.index_chirho, *self.leaves_chirho, v)
    }

    /// The summaries are exact: a root bit marks a block with a non-empty
    /// index, and an index bit marks a non-empty leaf.
    pub open spec fn wf(&self) -> bool {
        &&& forall|i: int| 0 <= i < 64 ==> #[trigger] bit64(self.root_chirho.0, i) == (self.index_chirho[i].0 != 0)
        &&& forall|i: int, j: int|
            0 <= i < 64 && 0 <= j < 64 ==> #[trigger] bit64(self.index_chirho[i].0, j) == (self.leaves_chirho[i][j].0 != 0)
    }

    /// The empty domain.
    pub fn empty_chirho() -> (r: Self)
        ensures
            r.wf(),
            r.root_chirho.0 == 0,
            forall|i: int| 0 <= i < 64 ==> #[trigger] r.index_chirho[i].0 == 0,
            forall|i: int, j: int| 0 <= i < 64 && 0 <= j < 64 ==> #[trigger] r.leaves_chirho[i][j].0 == 0,
            forall|v: int| !r.has(v),
    {
        let z = BitVec64Chirho(0);
        let row = [z; 64];
        let r = Self {
            root_chirho: z,
            index_chirho: Box::new([z; 64]),
            leaves_chirho: Box::new([row; 64]),
        };
        proof {
            lemma_zero_iff_no_bits(0);
        }
        r
    }

    /// The values `0..n`.
    pub fn range_chirho(n_chirho: u32) -> (r: Self)
        requires
            n_chirho <= 262144,
        ensures
            r.wf(),
            forall|w: int| r.has(w) == (0 <= w < n_chirho),
    {
        let z = BitVec64Chirho(0);
        let mut root: u64 = 0;
        let mut index = [z; 64];
        let mut leaves = [[z; 64]; 64];
        let mut v: u32 = 0;
        proof {
            lemma_zero_iff_no_bits(0);
        }
        while v < n_chirho
            invariant
                v <= n_chirho <= 262144,
                forall|i: int| #[trigger] bit64(root, i) == (0 <= i < 64 && 4096 * i < v),
                forall|i: int, j: int|
                    0 <= i < 64 ==> #[trigger] bit64(index[i].0, j) == (0 <= j < 64 && 4096 * i + 64 * j < v),
                forall|i: int, j: int, b: int|
                    0 <= i < 64 && 0 <= j < 64 ==> #[trigger] bit64(leaves[i][j].0, b) == (0 <= b < 64 && 4096 * i + 64 * j + b < v),
            decreases n_chirho - v,
        {
            let idx1_chirho = (v / 4096) as usize;
            let idx2_chirho = ((v % 4096) / 64) as usize;
            let bit_chirho = v % 64;
            let ghost old_root = root;
            let ghost old_index = index;
            let ghost old_leaves = leaves;
            let mut row = leaves[idx1_chirho];
            row[idx2_chirho] = BitVec64Chirho(row[idx2_chirho].0 | (1u64 << bit_chirho));
            leaves[idx1_chirho] = row;
            index[idx1_chirho] = BitVec64Chirho(index[idx1_chirho].0 | (1u64 << idx2_chirho));
            root = root | (1u64 << idx1_chirho);
            proof {
                assert forall|i: int| #[trigger] bit64(root, i) == (0 <= i < 64 && 4096 * i < v + 1) by {
                    lemma_or_bits(old_root, 1u64 << idx1_chirho, i);
                    lemma_shl_bits(idx1_chirho as u64, i);
                }
                assert forall|i: int, j: int|
                    0 <= i < 64 implies #[trigger] bit64(index[i].0, j) == (0 <= j < 64 && 4096 * i + 64 * j < v + 1) by {
                    if i == idx1_chirho {
                        lemma_or_bits(old_index[i].0, 1u64 << idx2_chirho, j);
                        lemma_shl_bits(idx2_chirho as u64, j);
                    }
                }
                assert forall|i: int, j: int, b: int|
                    0 <= i < 64 && 0 <= j < 64 implies #[trigger] bit64(leaves[i][j].0, b) == (0 <= b < 64 && 4096 * i + 64 * j + b < v + 1) by {
                    if i == idx1_chirho && j == idx2_chirho {
                        lemma_or_bits(old_leaves[i][j].0, 1u64 << bit_chirho, b);
                        lemma_shl_bits(bit_chirho as u64, b);
                    }
                }
            }
            v = v + 1;
        }
        proof {
            assert forall|i: int| 0 <= i < 64 implies #[trigger] bit64(root, i) == (index[i].0 != 0) by {
                lemma_zero_iff_no_bits(index[i].0);
                if 4096 * i < v {
                    assert(bit64(index[i].0, 0));
                }
            }
            assert forall|i: int, j: int|
                0 <= i < 64 && 0 <= j < 64 implies #[trigger] bit64(index[i].0, j) == (leaves[i][j].0 != 0) by {
                lemma_zero_iff_no_bits(leaves[i][j].0);
                if 4096 * i + 64 * j < v {
                    assert(bit64(leaves[i][j].0, 0));
                }
            }
        }
        Self { root_chirho: BitVec64Chirho(root), index_chirho: Box::new(index), leaves_chirho: Box::new(leaves) }
    }

    /// Values in both domains, visiting only blocks and leaves marked in both.
    /// The summaries of the result are exact whatever the inputs.
    pub fn intersect_chirho(&self, other_chirho: &Self) -> (r: Self)
        ensures
            r.wf(),
            forall|v: int| r.has(v) == (self.has(v) && other_chirho.has(v)),
    {
        let candidate_root_chirho = self.root_chirho.and_chirho(other_chirho.root_chirho);
        if candidate_root_chirho.is_zero_chirho() {
            let e = Self::empty_chirho();
            proof {
                assert forall|v: int| e.has(v) == (self.has(v) && other_chirho.has(v)) by {
                    lemma_and_bits(self.root_chirho.0, other_chirho.root_chirho.0, v / 4096);
                    lemma_zero_iff_no_bits(0);
                }
            }
            return e;
        }
        let cr = candidate_root_chirho.0;
        let z = BitVec64Chirho(0);
        let mut root: u64 = 0;
        let mut index = [z; 64];
        let mut leaves = [[z; 64]; 64];
        let mut i: usize = 0;
        proof {
            lemma_zero_iff_no_bits(0);
        }
        while i < 64
            invariant
                i <= 64,
                cr == self.root_chirho.0 & other_chirho.root_chirho.0,
                candidate_root_chirho.0 == cr,
                forall|v: int|
                    0 <= v < 262144 && v / 4096 < i ==> #[trigger] has3(root, index, leaves, v) == (self.has(v) && other_chirho.has(v)),
                forall|k: int| #[trigger] bit64(root, k) ==> 0 <= k < i,
                forall|k: int| i <= k < 64 ==> #[trigger] index[k].0 == 0,
                forall|k: int, j: int| i <= k < 64 && 0 <= j < 64 ==> #[trigger] leaves[k][j].0 == 0,
                forall|k: int| 0 <= k < i ==> #[trigger] bit64(root, k) == (index[k].0 != 0),
                forall|k: int, j: int|
                    0 <= k < i && 0 <= j < 64 ==> #[trigger] bit64(index[k].0, j) == (leaves[k][j].0 != 0),
            decreases 64 - i,
        {
            if candidate_root_chirho.test_bit_chirho(i as u32) {
                let ci = self.index_chirho[i].and_chirho(other_chirho.index_chirho[i]);
                let mut row = [BitVec64Chirho(0); 64];
                let mut idx: u64 = 0;
                let mut j: usize = 0;
                proof {
                    lemma_zero_iff_no_bits(0);
                }
                while j < 64
                    invariant
                        i < 64,
                        j <= 64,
                        ci.0 == self.index_chirho[i as int].0 & other_chirho.index_chirho[i as int].0,
                        forall|k: int| #[trigger] bit64(idx, k) == (0 <= k < j && bit64(ci.0, k)
                            && (self.leaves_chirho[i as int][k].0 & other_chirho.leaves_chirho[i as int][k].0) != 0),
                        forall|k: int| 0 <= k < 64 ==> #[trigger] row[k].0 == if k < j && bit64(ci.0, k) {
                            self.leaves_chirho[i as int][k].0 & other_chirho.leaves_chirho[i as int][k].0
                        } else {
                            0
                        },
                    decreases 64 - j,
                {
                    let ghost prev = idx;
                    if ci.test_bit_chirho(j as u32) {
                        let leaf = self.leaves_chirho[i][j].and_chirho(other_chirho.leaves_chirho[i][j]);
                        row[j] = leaf;
                        if !leaf.is_zero_chirho() {
                            idx = idx | (1u64 << j);
                        }
                    }
                    proof {
                        assert forall|k: int| #[trigger] bit64(idx, k) == (0 <= k < j + 1 && bit64(ci.0, k)
                            && (self.leaves_chirho[i as int][k].0 & other_chirho.leaves_chirho[i as int][k].0) != 0) by {
                            lemma_or_bits(prev, 1u64 << j, k);
                            lemma_shl_bits(j as u64, k);
                        }
                    }
                    j = j + 1;
                }
                let ghost old_root = root;
                let ghost old_index = index;
                let ghost old_leaves = leaves;
                if idx != 0 {
                    root = root | (1u64 << i);
                }
                index[i] = BitVec64Chirho(idx);
                leaves[i] = row;
                proof {
                    assert forall|k: int| #[trigger] bit64(root, k) implies 0 <= k < i + 1 by {
                        lemma_or_bits(old_root, 1u64 << i, k);
                        lemma_shl_bits(i as u64, k);
                    }
                    assert forall|v: int|
                        0 <= v < 262144 && v / 4096 < i + 1 implies #[trigger] has3(root, index, leaves, v) == (self.has(v) && other_chirho.has(v)) by {
                        let a = v / 4096;
                        let b = (v % 4096) / 64;
                        lemma_or_bits(old_root, 1u64 << i, a);
                        lemma_shl_bits(i as u64, a);
                        if a < i {
                            assert(index[a] == old_index[a]);
                            assert(leaves[a] == old_leaves[a]);
                            assert(has3(old_root, old_index, old_leaves, v) == (self.has(v) && other_chirho.has(v)));
                        } else {
                            assert(a == i);
                            assert(index[a].0 == idx);
                            assert(leaves[a][b] == row[b]);
                            assert(bit64(root, a) == (idx != 0)) by {
                                assert(!bit64(old_root, a));
                            }
                            assert(bit64(idx, b) == (bit64(ci.0, b) && (self.leaves_chirho[a][b].0 & other_chirho.leaves_chirho[a][b].0) != 0));
                            assert(row[b].0 == if bit64(ci.0, b) { self.leaves_chirho[a][b].0 & other_chirho.leaves_chirho[a][b].0 } else { 0 });
                            lemma_and_bits(self.root_chirho.0, other_chirho.root_chirho.0, a);
                            lemma_and_bits(self.index_chirho[a].0, other_chirho.index_chirho[a].0, b);
                            lemma_and_bits(self.leaves_chirho[a][b].0, other_chirho.leaves_chirho[a][b].0, v % 64);
                            lemma_zero_iff_no_bits(idx);
                            lemma_zero_iff_no_bits(self.leaves_chirho[a][b].0 & other_chirho.leaves_chirho[a][b].0);
                        }
                    }
                    assert forall|k: int| 0 <= k < i + 1 implies #[trigger] bit64(root, k) == (index[k].0 != 0) by {
                        lemma_or_bits(old_root, 1u64 << i, k);
                        lemma_shl_bits(i as u64, k);
                        if k < i {
                            assert(index[k] == old_index[k]);
                        } else {
                            assert(!bit64(old_root, k));
                        }
                    }
                    assert forall|k: int, j: int|
                        0 <= k < i + 1 && 0 <= j < 64 implies #[trigger] bit64(index[k].0, j) == (leaves[k][j].0 != 0) by {
                        if k < i {
                            assert(index[k] == old_index[k]);
                            assert(leaves[k] == old_leaves[k]);
                        } else {
                            assert(index[k].0 == idx);
                            assert(leaves[k][j] == row[j]);
                        }
                    }
                    assert forall|k: int, j: int| i + 1 <= k < 64 && 0 <= j < 64 implies #[trigger] leaves[k][j].0 == 0 by {
                        assert(leaves[k] == old_leaves[k]);
                    }
                }
            } else {
                proof {
                    assert(!bit64(root, i as int));
                    assert forall|j: int| 0 <= j < 64 implies #[trigger] bit64(index[i as int].0, j) == (leaves[i as int][j].0 != 0) by {
                        lemma_zero_iff_no_bits(0);
                    }
                    assert forall|v: int|
                        0 <= v < 262144 && v / 4096 < i + 1 implies #[trigger] has3(root, index, leaves, v) == (self.has(v) && other_chirho.has(v)) by {
                        if v / 4096 == i {
                            lemma_and_bits(self.root_chirho.0, other_chirho.root_chirho.0, i as int);
                            assert(!bit64(root, i as int));
                        }
                    }
                }
            }
            i = i + 1;
        }
        let r = Self { root_chirho: BitVec64Chirho(root), index_chirho: Box::new(index), leaves_chirho: Box::new(leaves) };
        r
    }

    /// No block is marked in the root; with exact summaries, exactly when
    /// the domain holds no value.
    pub fn is_empty_chirho(&self) -> (r: bool)
        ensures
            r == (self.root_chirho.0 == 0),
            r ==> forall|v: int| !self.has(v),
            self.wf() ==> (r == forall|v: int| !self.has(v)),
    {
        proof {
            lemma_zero_iff_no_bits(self.root_chirho.0);
            if self.wf() && self.root_chirho.0 != 0 {
                let i = choose|i: int| bit64(self.root_chirho.0, i);
                assert(self.index_chirho[i].0 != 0);
                lemma_zero_iff_no_bits(self.index_chirho[i].0);
                let j = choose|j: int| bit64(self.index_chirho[i].0, j);
                assert(self.leaves_chirho[i][j].0 != 0);
                lemma_zero_iff_no_bits(self.leaves_chirho[i][j].0);
                let b = choose|b: int| bit64(self.leaves_chirho[i][j].0, b);
                let v = 4096 * i + 64 * j + b;
                assert(v / 4096 == i && (v % 4096) / 64 == j && v % 64 == b);
                assert(self.has(v));
            }
        }
        self.root_chirho.is_zero_chirho()
    }
}


/// Word-wise AND of 256-bit registers intersects their values.
pub proof fn lemma_and256(a: [u64; 4], b: [u64; 4], r: [u64; 4])
    requires
        forall|k: int| 0 <= k < 4 ==> #[trigger] r[k] == a[k] & b[k],
    ensures
        forall|i: int| #[trigger] bit256(r, i) == (bit256(a, i) && bit256(b, i)),
{
    assert forall|i: int| #[trigger] bit256(r, i) == (bit256(a, i) && bit256(b, i)) by {
        if 0 <= i < 256 {
            lemma_and_bits(a[i / 64], b[i / 64], i % 64);
        }
    }
}

/// Word-wise OR of 256-bit registers unites their values.
pub proof fn lemma_or256(a: [u64; 4], b: [u64; 4], r: [u64; 4])
    requires
        forall|k: int| 0 <= k < 4 ==> #[trigger] r[k] == a[k] | b[k],
    ensures
        forall|i: int| #[trigger] bit256(r, i) == (bit256(a, i) || bit256(b, i)),
{
    assert forall|i: int| #[trigger] bit256(r, i) == (bit256(a, i) || bit256(b, i)) by {
        if 0 <= i < 256 {
            lemma_or_bits(a[i / 64], b[i / 64], i % 64);
        }
    }
}

/// A 256-bit register is zero exactly when it holds no value.
pub proof fn lemma_zero256(w: [u64; 4])
    ensures
        is_zero256(w) == (forall|i: int| !#[trigger] bit256(w, i)),
{
    lemma_zero_iff_no_bits(w[0]);
    lemma_zero_iff_no_bits(w[1]);
    lemma_zero_iff_no_bits(w[2]);
    lemma_zero_iff_no_bits(w[3]);
    if !is_zero256(w) {
        let k: int = if w[0] != 0 { 0 } else if w[1] != 0 { 1 } else if w[2] != 0 { 2 } else { 3 };
        let j = choose|j: int| bit64(w[k], j);
        assert(bit256(w, 64 * k + j));
    }
}

/// 256-bit register holding exactly the values `0..n` (`n <= 256`).
pub open spec fn prefix256(w: [u64; 4], n: int) -> bool {
    forall|i: int| #[trigger] bit256(w, i) == (0 <= i < n)
}

fn prefix_words256(n: u32) -> (r: [u64; 4])
    requires
        n <= 256,
    ensures
        prefix256(r, n as int),
{
    let full_words = n / 64;
    let rem_bits = n % 64;
    let mut words: [u64; 4] = [0, 0, 0, 0];
    let mut k: usize = 0;
    proof {
        lemma_zero_iff_no_bits(0);
    }
    while k < full_words as usize
        invariant
            k <= full_words <= 4,
            forall|j: int| 0 <= j < 4 ==> #[trigger] words[j] == if j < k { u64::MAX } else { 0 },
        decreases full_words - k,
    {
        words[k] = u64::MAX;
        k = k + 1;
    }
    if rem_bits > 0 && (full_words as usize) < 4 {
        assert((1u64 << rem_bits) >= 1) by (bit_vector)
            requires
                rem_bits < 64,
        ;
        words[full_words as usize] = (1u64 << rem_bits) - 1;
    }
    proof {
        assert forall|i: int| #[trigger] bit256(words, i) == (0 <= i < n) by {
            if 0 <= i < 256 {
                if i / 64 < full_words {
                    lemma_low_mask_bits(64, i % 64);
                } else if i / 64 == full_words && rem_bits > 0 {
                    lemma_low_mask_bits(rem_bits as u64, i % 64);
                }
            }
        }
    }
    words
}

/// Sum of the counts of the 256-bit leaves `0..n` whose root bit is set.
pub open spec fn count_leaves256(root: u64, leaves: Seq<BitVec256Chirho>, n: nat) -> nat
    decreases n,
{
    if n == 0 {
        0
    } else {
        count_leaves256(root, leaves, (n - 1) as nat) + if bit64(root, n - 1) {
            popcount256(leaves[n - 1].0)
        } else {
            0
        }
    }
}

pub proof fn lemma_count_leaves256_bound(root: u64, leaves: Seq<BitVec256Chirho>, n: nat)
    ensures
        count_leaves256(root, leaves, n) <= 256 * n,
    decreases n,
{
    if n > 0 {
        lemma_count_leaves256_bound(root, leaves, (n - 1) as nat);
        lemma_popcount64_bound(leaves[n - 1].0[0]);
        lemma_popcount64_bound(leaves[n - 1].0[1]);
        lemma_popcount64_bound(leaves[n - 1].0[2]);
        lemma_popcount64_bound(leaves[n - 1].0[3]);
    }
}

/// Two-level domain with 256-bit leaves: 64 x 256 = 16,384 values.
#[derive(Clone, Debug)]
pub struct Hierarchical16kChirho {
    /// Bit `i` set: leaf `i` is non-empty.
    pub root_chirho: BitVec64Chirho,
    /// Value `256 * i + j` is bit `j` of leaf `i`.
    pub leaves_chirho: Box<[BitVec256Chirho; 64]>,
}

impl Hierarchical16kChirho {
    /// Value `v` is in the domain.
    pub open spec fn has(&self, v: int) -> bool {
        0 <= v < 16384 && bit64(self.root_chirho.0, v / 256) && bit256(self.leaves_chirho[v / 256].0, v % 256)
    }

    /// The root marks exactly the non-empty leaves.
    pub open spec fn wf(&self) -> bool {
        forall|i: int| 0 <= i < 64 ==> (bit64(self.root_chirho.0, i) <==> !is_zero256(#[trigger] self.leaves_chirho[i].0))
    }

    /// Number of values.
    pub open spec fn count_spec(&self) -> nat {
        count_leaves256(self.root_chirho.0, self.leaves_chirho@, 64)
    }

    /// The values of the domain.
    pub open spec fn values(&self) -> Set<int> {
        Set::new(|v: int| self.has(v))
    }

    /// The count is the number of values of the domain.
    pub proof fn lemma_count_values(&self)
        ensures
            self.values().finite(),
            self.count_spec() == self.values().len(),
    {
        let f = |v: int| self.has(v);
        lemma_count16k(self.root_chirho.0, self.leaves_chirho@, f, 64);
        lemma_count_in_card(f, 0, 16384);
        assert(self.values() =~= window_set(f, 0, 16384));
    }

    /// The empty domain.
    pub fn empty_chirho() -> (r: Self)
        ensures
            r.root_chirho.0 == 0,
            forall|i: int| 0 <= i < 64 ==> is_zero256(#[trigger] r.leaves_chirho[i].0),
            r.wf(),
            forall|v: int| !r.has(v),
    {
        let z = BitVec256Chirho([0, 0, 0, 0]);
        proof {
            lemma_zero_iff_no_bits(0);
        }
        Self { root_chirho: BitVec64Chirho(0), leaves_chirho: Box::new([z; 64]) }
    }

    /// All 16,384 values.
    pub fn full_chirho() -> (r: Self)
        ensures
            r.wf(),
            forall|v: int| r.has(v) == (0 <= v < 16384),
    {
        let o = BitVec256Chirho([u64::MAX, u64::MAX, u64::MAX, u64::MAX]);
        let r = Self { root_chirho: BitVec64Chirho(u64::MAX), leaves_chirho: Box::new([o; 64]) };
        proof {
            assert forall|v: int| r.has(v) == (0 <= v < 16384) by {
                if 0 <= v < 16384 {
                    lemma_low_mask_bits(64, v / 256);
                    lemma_low_mask_bits(64, (v % 256) % 64);
                }
            }
            assert forall|i: int| 0 <= i < 64 implies (bit64(r.root_chirho.0, i) <==> !is_zero256(#[trigger] r.leaves_chirho[i].0)) by {
                lemma_low_mask_bits(64, i);
            }
        }
        r
    }

    /// The values `0..n`.
    pub fn range_chirho(n_chirho: u32) -> (r: Self)
        requires
            n_chirho <= 16384,
        ensures
            r.wf(),
            forall|v: int| r.has(v) == (0 <= v < n_chirho),
    {
        let full_leaves_chirho = n_chirho / 256;
        let remainder_chirho = n_chirho % 256;
        let z = BitVec256Chirho([0, 0, 0, 0]);
        let mut leaves = [z; 64];
        let mut root: u64 = 0;
        let mut i: usize = 0;
        let ones = BitVec256Chirho([u64::MAX, u64::MAX, u64::MAX, u64::MAX]);
        proof {
            lemma_zero_iff_no_bits(0);
            lemma_zero256(ones.0);
            lemma_zero256(z.0);
            assert forall|k: int| #[trigger] bit256(ones.0, k) == (0 <= k < 256) by {
                if 0 <= k < 256 {
                    lemma_low_mask_bits(64, k % 64);
                }
            }
        }
        while i < full_leaves_chirho as usize
            invariant
                i <= full_leaves_chirho <= 64,
                ones == BitVec256Chirho([u64::MAX, u64::MAX, u64::MAX, u64::MAX]),
                forall|k: int| #[trigger] bit256(ones.0, k) == (0 <= k < 256),
                forall|j: int| #[trigger] bit64(root, j) == (0 <= j < i),
                forall|j: int| 0 <= j < 64 ==> #[trigger] leaves[j] == if j < i { ones } else { BitVec256Chirho([0, 0, 0, 0]) },
            decreases full_leaves_chirho - i,
        {
            leaves[i] = ones;
            let ghost prev = root;
            root = root | (1u64 << i);
            proof {
                assert forall|j: int| #[trigger] bit64(root, j) == (0 <= j < i + 1) by {
                    lemma_or_bits(prev, 1u64 << i, j);
                    lemma_shl_bits(i as u64, j);
                }
            }
            i = i + 1;
        }
        let ghost partial = [0u64, 0u64, 0u64, 0u64];
        if remainder_chirho > 0 && (full_leaves_chirho as usize) < 64 {
            let f = full_leaves_chirho as usize;
            let words_chirho = prefix_words256(remainder_chirho);
            proof {
                partial = words_chirho;
            }
            leaves[f] = BitVec256Chirho(words_chirho);
            let ghost prev = root;
            root = root | (1u64 << f);
            proof {
                assert forall|j: int| #[trigger] bit64(root, j) == (0 <= j <= f) by {
                    lemma_or_bits(prev, 1u64 << f, j);
                    lemma_shl_bits(f as u64, j);
                }
            }
        }
        let r = Self { root_chirho: BitVec64Chirho(root), leaves_chirho: Box::new(leaves) };
        proof {
            lemma_zero256([0u64, 0u64, 0u64, 0u64]);
            assert forall|v: int| r.has(v) == (0 <= v < n_chirho) by {
                if 0 <= v < 16384 {
                    let k = v / 256;
                    if k == full_leaves_chirho && remainder_chirho > 0 {
                        assert(r.leaves_chirho[k].0 == partial);
                    }
                }
            }
            assert forall|j: int| 0 <= j < 64 implies (bit64(r.root_chirho.0, j) <==> !is_zero256(#[trigger] r.leaves_chirho[j].0)) by {
                lemma_zero256(r.leaves_chirho[j].0);
                if j == full_leaves_chirho && remainder_chirho > 0 {
                    assert(bit256(partial, 0));
                } else if j < full_leaves_chirho {
                    assert(bit256(ones.0, 0));
                }
            }
        }
        r
    }

    /// Exactly the value `value_chirho` (below 16,384).
    pub fn singleton_chirho(value_chirho: u32) -> (r: Self)
        requires
            value_chirho < 16384,
        ensures
            r.wf(),
            forall|v: int| r.has(v) == (v == value_chirho),
    {
        let leaf_idx_chirho = (value_chirho / 256) as usize;
        let bit_idx_chirho = value_chirho % 256;
        let word_idx_chirho = (bit_idx_chirho / 64) as usize;
        let bit_in_word_chirho = bit_idx_chirho % 64;
        let mut words_chirho: [u64; 4] = [0, 0, 0, 0];
        words_chirho[word_idx_chirho] = 1u64 << bit_in_word_chirho;
        let z = BitVec256Chirho([0, 0, 0, 0]);
        let mut leaves = [z; 64];
        leaves[leaf_idx_chirho] = BitVec256Chirho(words_chirho);
        let r = Self { root_chirho: BitVec64Chirho(1u64 << leaf_idx_chirho), leaves_chirho: Box::new(leaves) };
        proof {
            lemma_zero_iff_no_bits(0);
            assert forall|v: int| r.has(v) == (v == value_chirho) by {
                if 0 <= v < 16384 {
                    lemma_shl_bits(leaf_idx_chirho as u64, v / 256);
                    lemma_shl_bits(bit_in_word_chirho as u64, (v % 256) % 64);
                }
            }
            assert forall|j: int| 0 <= j < 64 implies (bit64(r.root_chirho.0, j) <==> !is_zero256(#[trigger] r.leaves_chirho[j].0)) by {
                lemma_shl_bits(leaf_idx_chirho as u64, j);
                lemma_zero256(r.leaves_chirho[j].0);
                if j == leaf_idx_chirho {
                    lemma_shl_bits(bit_in_word_chirho as u64, bit_in_word_chirho as int);
                    assert(bit256(r.leaves_chirho[j].0, bit_idx_chirho as int));
                }
            }
        }
        r
    }

    /// Is `value_chirho` in the domain?
    pub fn contains_chirho(&self, value_chirho: u32) -> (r: bool)
        ensures
            r == self.has(value_chirho as int),
    {
        if value_chirho >= 16384 {
            return false;
        }
        let leaf_idx_chirho = (value_chirho / 256) as usize;
        if !self.root_chirho.test_bit_chirho(leaf_idx_chirho as u32) {
            return false;
        }
        let bit_idx_chirho = value_chirho % 256;
        self.leaves_chirho[leaf_idx_chirho].test_bit_chirho(bit_idx_chirho)
    }

    /// Values in both domains.
    pub fn intersect_chirho(&self, other_chirho: &Self) -> (r: Self)
        ensures
            r.wf(),
            forall|v: int| r.has(v) == (self.has(v) && other_chirho.has(v)),
    {
        let new_root_chirho = self.root_chirho.and_chirho(other_chirho.root_chirho);
        if new_root_chirho.is_zero_chirho() {
            let e = Self::empty_chirho();
            proof {
                assert forall|v: int| e.has(v) == (self.has(v) && other_chirho.has(v)) by {
                    lemma_and_bits(self.root_chirho.0, other_chirho.root_chirho.0, v / 256);
                    lemma_zero_iff_no_bits(0);
                }
            }
            return e;
        }
        let cand = new_root_chirho.0;
        let mut new_leaves = [BitVec256Chirho([0, 0, 0, 0]); 64];
        let mut final_root: u64 = 0;
        let mut bits_chirho = cand;
        proof {
            lemma_zero_iff_no_bits(0);
            lemma_zero256([0u64, 0u64, 0u64, 0u64]);
        }
        while bits_chirho != 0
            invariant
                cand == self.root_chirho.0 & other_chirho.root_chirho.0,
                forall|j: int| #[trigger] bit64(bits_chirho, j) ==> bit64(cand, j),
                forall|j: int, k: int|
                    0 <= j < 64 ==> #[trigger] bit256(new_leaves[j].0, k) == (!bit64(bits_chirho, j) && bit64(cand, j)
                        && bit256(self.leaves_chirho[j].0, k) && bit256(other_chirho.leaves_chirho[j].0, k)),
                forall|j: int|
                    #[trigger] bit64(final_root, j) == (0 <= j < 64 && !bit64(bits_chirho, j) && bit64(cand, j)
                        && !is_zero256(new_leaves[j].0)),
                forall|j: int| 0 <= j < 64 ==> (is_zero256(#[trigger] new_leaves[j].0) == forall|k: int| !bit256(new_leaves[j].0, k)),
            decreases bits_chirho,
        {
            proof {
                lemma_clear_lowest(bits_chirho);
            }
            let i_chirho = bits_chirho.trailing_zeros() as usize;
            let ghost old_bits = bits_chirho;
            bits_chirho = bits_chirho & (bits_chirho - 1);
            let leaf_result_chirho = self.leaves_chirho[i_chirho].and_chirho(other_chirho.leaves_chirho[i_chirho]);
            proof {
                lemma_and256(self.leaves_chirho[i_chirho as int].0, other_chirho.leaves_chirho[i_chirho as int].0, leaf_result_chirho.0);
                lemma_zero256(leaf_result_chirho.0);
            }
            let ghost prev_root = final_root;
            let ghost prev_leaves = new_leaves;
            if !leaf_result_chirho.is_zero_chirho() {
                new_leaves[i_chirho] = leaf_result_chirho;
                final_root = final_root | (1u64 << i_chirho);
            }
            proof {
                assert forall|j: int, k: int| 0 <= j < 64 implies #[trigger] bit256(new_leaves[j].0, k) == (!bit64(bits_chirho, j) && bit64(cand, j)
                    && bit256(self.leaves_chirho[j].0, k) && bit256(other_chirho.leaves_chirho[j].0, k)) by {
                    assert(bits_chirho == old_bits & ((old_bits - 1) as u64));
                    assert(bit64(bits_chirho, j) == (bit64(old_bits, j) && j != i_chirho));
                    if j != i_chirho {
                        assert(new_leaves[j] == prev_leaves[j]);
                        assert(bit256(prev_leaves[j].0, k) == (!bit64(old_bits, j) && bit64(cand, j)
                            && bit256(self.leaves_chirho[j].0, k) && bit256(other_chirho.leaves_chirho[j].0, k)));
                    } else {
                        assert(bit64(old_bits, j));
                        assert(bit64(cand, j));
                        assert(bit256(prev_leaves[j].0, k) == (!bit64(old_bits, j) && bit64(cand, j)
                            && bit256(self.leaves_chirho[j].0, k) && bit256(other_chirho.leaves_chirho[j].0, k)));
                        assert(bit256(leaf_result_chirho.0, k) == (bit256(self.leaves_chirho[j].0, k) && bit256(other_chirho.leaves_chirho[j].0, k)));
                        if is_zero256(leaf_result_chirho.0) {
                            assert(!bit256(leaf_result_chirho.0, k));
                        } else {
                            assert(new_leaves[j] == leaf_result_chirho);
                        }
                    }
                }
                assert forall|j: int| 0 <= j < 64 implies (is_zero256(#[trigger] new_leaves[j].0) == forall|k: int| !bit256(new_leaves[j].0, k)) by {
                    lemma_zero256(new_leaves[j].0);
                }
                assert forall|j: int| #[trigger] bit64(final_root, j) == (0 <= j < 64 && !bit64(bits_chirho, j) && bit64(cand, j)
                    && !is_zero256(new_leaves[j].0)) by {
                    lemma_or_bits(prev_root, 1u64 << i_chirho, j);
                    lemma_shl_bits(i_chirho as u64, j);
                }
            }
        }
        let r = Self { root_chirho: BitVec64Chirho(final_root), leaves_chirho: Box::new(new_leaves) };
        proof {
            assert forall|v: int| r.has(v) == (self.has(v) && other_chirho.has(v)) by {
                if 0 <= v < 16384 {
                    let a = v / 256;
                    let b = v % 256;
                    lemma_and_bits(self.root_chirho.0, other_chirho.root_chirho.0, a);
                    assert(!bit64(bits_chirho, a));
                    assert(bit256(new_leaves[a].0, b) == (bit64(cand, a)
                        && bit256(self.leaves_chirho[a].0, b) && bit256(other_chirho.leaves_chirho[a].0, b)));
                    assert(is_zero256(new_leaves[a].0) == forall|k: int| !bit256(new_leaves[a].0, k));
                }
            }
            assert forall|i: int| 0 <= i < 64 implies (bit64(r.root_chirho.0, i) <==> !is_zero256(#[trigger] r.leaves_chirho[i].0)) by {
                assert(!bit64(bits_chirho, i));
                lemma_zero256(new_leaves[i].0);
                if !bit64(cand, i) {
                    if !is_zero256(new_leaves[i].0) {
                        let k = choose|k: int| bit256(new_leaves[i].0, k);
                        assert(bit256(new_leaves[i].0, k) == (bit64(cand, i) && bit256(self.leaves_chirho[i].0, k) && bit256(other_chirho.leaves_chirho[i].0, k)));
                    }
                }
            }
        }
        r
    }

    /// Values in either domain (exact when both roots mark exactly their non-empty leaves).
    pub fn union_chirho(&self, other_chirho: &Self) -> (r: Self)
        ensures
            r.root_chirho.0 == self.root_chirho.0 | other_chirho.root_chirho.0,
            self.wf() && other_chirho.wf() ==> r.wf(),
            self.wf() && other_chirho.wf() ==> forall|v: int| r.has(v) == (self.has(v) || other_chirho.has(v)),
    {
        let new_root_chirho = self.root_chirho.or_chirho(other_chirho.root_chirho);
        let mut new_leaves = *self.leaves_chirho;
        let ob = other_chirho.root_chirho.0;
        let mut bits_chirho = ob;
        proof {
            lemma_zero_iff_no_bits(0);
        }
        while bits_chirho != 0
            invariant
                ob == other_chirho.root_chirho.0,
                forall|j: int| #[trigger] bit64(bits_chirho, j) ==> bit64(ob, j),
                forall|j: int, k: int|
                    0 <= j < 64 ==> #[trigger] bit256(new_leaves[j].0, k) == (bit256(self.leaves_chirho[j].0, k) || (!bit64(bits_chirho, j)
                        && bit64(ob, j) && bit256(other_chirho.leaves_chirho[j].0, k))),
            decreases bits_chirho,
        {
            proof {
                lemma_clear_lowest(bits_chirho);
            }
            let i_chirho = bits_chirho.trailing_zeros() as usize;
            bits_chirho = bits_chirho & (bits_chirho - 1);
            let prev_leaf = new_leaves[i_chirho];
            new_leaves[i_chirho] = prev_leaf.or_chirho(other_chirho.leaves_chirho[i_chirho]);
            proof {
                lemma_or256(prev_leaf.0, other_chirho.leaves_chirho[i_chirho as int].0, new_leaves[i_chirho as int].0);
            }
        }
        let r = Self { root_chirho: new_root_chirho, leaves_chirho: Box::new(new_leaves) };
        proof {
            if self.wf() && other_chirho.wf() {
                assert forall|v: int| r.has(v) == (self.has(v) || other_chirho.has(v)) by {
                    if 0 <= v < 16384 {
                        let k = v / 256;
                        lemma_or_bits(self.root_chirho.0, other_chirho.root_chirho.0, k);
                        lemma_zero256(self.leaves_chirho[k].0);
                        lemma_zero256(other_chirho.leaves_chirho[k].0);
                    }
                }
                assert forall|i: int| 0 <= i < 64 implies (bit64(r.root_chirho.0, i) <==> !is_zero256(#[trigger] r.leaves_chirho[i].0)) by {
                    lemma_or_bits(self.root_chirho.0, other_chirho.root_chirho.0, i);
                    lemma_zero256(self.leaves_chirho[i].0);
                    lemma_zero256(other_chirho.leaves_chirho[i].0);
                    lemma_zero256(r.leaves_chirho[i].0);
                    if !is_zero256(self.leaves_chirho[i].0) {
                        let b = choose|b: int| bit256(self.leaves_chirho[i].0, b);
                        assert(bit256(r.leaves_chirho[i].0, b));
                    }
                    if !is_zero256(other_chirho.leaves_chirho[i].0) {
                        let b = choose|b: int| bit256(other_chirho.leaves_chirho[i].0, b);
                        assert(bit256(r.leaves_chirho[i].0, b));
                    }
                }
            }
        }
        r
    }

    /// No leaf is marked in the root.
    pub fn is_empty_chirho(&self) -> (r: bool)
        ensures
            r == (self.root_chirho.0 == 0),
            self.wf() ==> (r <==> forall|v: int| !self.has(v)),
    {
        let r = self.root_chirho.is_zero_chirho();
        proof {
            lemma_zero_iff_no_bits(self.root_chirho.0);
            if self.wf() && !r {
                let i = choose|i: int| bit64(self.root_chirho.0, i);
                lemma_zero256(self.leaves_chirho[i].0);
                let j = choose|j: int| bit256(self.leaves_chirho[i].0, j);
                assert(self.has(256 * i + j));
            }
        }
        r
    }

    /// Number of values in the domain.
    pub fn count_chirho(&self) -> (r: u32)
        ensures
            r == self.count_spec(),
            r == self.values().len(),
    {
        let mut count_chirho: u32 = 0;
        let mut i: usize = 0;
        while i < 64
            invariant
                i <= 64,
                count_chirho == count_leaves256(self.root_chirho.0, self.leaves_chirho@, i as nat),
            decreases 64 - i,
        {
            proof {
                lemma_count_leaves256_bound(self.root_chirho.0, self.leaves_chirho@, (i + 1) as nat);
            }
            if self.root_chirho.test_bit_chirho(i as u32) {
                count_chirho = count_chirho + self.leaves_chirho[i].popcount_chirho();
            }
            i = i + 1;
        }
        proof {
            self.lemma_count_values();
        }
        count_chirho
    }
}


fn set_bit_words256(w: [u64; 4], idx: u32) -> (r: [u64; 4])
    requires
        idx < 256,
    ensures
        forall|j: int| #[trigger] bit256(r, j) == (bit256(w, j) || j == idx),
{
    let mut r = w;
    let k = (idx / 64) as usize;
    let b = idx % 64;
    r[k] = r[k] | (1u64 << b);
    proof {
        assert forall|j: int| #[trigger] bit256(r, j) == (bit256(w, j) || j == idx) by {
            if 0 <= j < 256 {
                if j / 64 == k {
                    lemma_or_bits(w[k as int], 1u64 << b, j % 64);
                    lemma_shl_bits(b as u64, j % 64);
                }
            }
        }
    }
    r
}

fn set_bit_words512(w: [u64; 8], idx: u32) -> (r: [u64; 8])
    requires
        idx < 512,
    ensures
        forall|j: int| #[trigger] bit512(r, j) == (bit512(w, j) || j == idx),
{
    let mut r = w;
    let k = (idx / 64) as usize;
    let b = idx % 64;
    r[k] = r[k] | (1u64 << b);
    proof {
        assert forall|j: int| #[trigger] bit512(r, j) == (bit512(w, j) || j == idx) by {
            if 0 <= j < 512 {
                if j / 64 == k {
                    lemma_or_bits(w[k as int], 1u64 << b, j % 64);
                    lemma_shl_bits(b as u64, j % 64);
                }
            }
        }
    }
    r
}

fn prefix_words512(n: u32) -> (r: [u64; 8])
    requires
        n <= 512,
    ensures
        forall|i: int| #[trigger] bit512(r, i) == (0 <= i < n),
{
    let full_words = n / 64;
    let rem_bits = n % 64;
    let mut words: [u64; 8] = [0, 0, 0, 0, 0, 0, 0, 0];
    let mut k: usize = 0;
    proof {
        lemma_zero_iff_no_bits(0);
    }
    while k < full_words as usize
        invariant
            k <= full_words <= 8,
            forall|j: int| 0 <= j < 8 ==> #[trigger] words[j] == if j < k { u64::MAX } else { 0 },
        decreases full_words - k,
    {
        words[k] = u64::MAX;
        k = k + 1;
    }
    if rem_bits > 0 && (full_words as usize) < 8 {
        assert((1u64 << rem_bits) >= 1) by (bit_vector)
            requires
                rem_bits < 64,
        ;
        words[full_words as usize] = (1u64 << rem_bits) - 1;
    }
    proof {
        assert forall|i: int| #[trigger] bit512(words, i) == (0 <= i < n) by {
            if 0 <= i < 512 {
                if i / 64 < full_words {
                    lemma_low_mask_bits(64, i % 64);
                } else if i / 64 == full_words && rem_bits > 0 {
                    lemma_low_mask_bits(rem_bits as u64, i % 64);
                }
            }
        }
    }
    words
}

pub open spec fn is_zero512(w: [u64; 8]) -> bool {
    forall|k: int| 0 <= k < 8 ==> #[trigger] w[k] == 0
}

/// A 512-bit register is zero exactly when it holds no value.
pub proof fn lemma_zero512(w: [u64; 8])
    ensures
        is_zero512(w) == (forall|i: int| !#[trigger] bit512(w, i)),
{
    if !is_zero512(w) {
        let k = choose|k: int| 0 <= k < 8 && w[k] != 0;
        lemma_zero_iff_no_bits(w[k]);
        let j = choose|j: int| bit64(w[k], j);
        assert(bit512(w, 64 * k + j));
    } else {
        lemma_zero_iff_no_bits(0);
    }
}

/// Word-wise AND of 512-bit registers intersects their values.
pub proof fn lemma_and512(a: [u64; 8], b: [u64; 8], r: [u64; 8])
    requires
        forall|k: int| 0 <= k < 8 ==> #[trigger] r[k] == a[k] & b[k],
    ensures
        forall|i: int| #[trigger] bit512(r, i) == (bit512(a, i) && bit512(b, i)),
{
    assert forall|i: int| #[trigger] bit512(r, i) == (bit512(a, i) && bit512(b, i)) by {
        if 0 <= i < 512 {
            lemma_and_bits(a[i / 64], b[i / 64], i % 64);
        }
    }
}

/// Sum of the counts of the 256-bit leaves `0..n` whose bit in a 256-bit root is set.
pub open spec fn count_leaves_wide256(root: [u64; 4], leaves: Seq<BitVec256Chirho>, n: nat) -> nat
    decreases n,
{
    if n == 0 {
        0
    } else {
        count_leaves_wide256(root, leaves, (n - 1) as nat) + if bit256(root, n - 1) {
            popcount256(leaves[n - 1].0)
        } else {
            0
        }
    }
}

pub proof fn lemma_count_leaves_wide256_bound(root: [u64; 4], leaves: Seq<BitVec256Chirho>, n: nat)
    ensures
        count_leaves_wide256(root, leaves, n) <= 256 * n,
    decreases n,
{
    if n > 0 {
        lemma_count_leaves_wide256_bound(root, leaves, (n - 1) as nat);
        lemma_popcount64_bound(leaves[n - 1].0[0]);
        lemma_popcount64_bound(leaves[n - 1].0[1]);
        lemma_popcount64_bound(leaves[n - 1].0[2]);
        lemma_popcount64_bound(leaves[n - 1].0[3]);
    }
}

/// Two-level domain with 256-bit words: 256 x 256 = 65,536 values.
#[derive(Clone)]
pub struct Hierarchical65kChirho {
    /// Bit `i` set: leaf `i` is non-empty.
    pub root_chirho: BitVec256Chirho,
    /// Value `256 * i + j` is bit `j` of leaf `i`.
    pub leaves_chirho: Box<[BitVec256Chirho; 256]>,
}

impl Hierarchical65kChirho {
    /// Value `v` is in the domain.
    pub open spec fn has(&self, v: int) -> bool {
        0 <= v < 65536 && bit256(self.root_chirho.0, v / 256) && bit256(self.leaves_chirho[v / 256].0, v % 256)
    }

    /// The root marks exactly the non-empty leaves.
    pub open spec fn wf(&self) -> bool {
        forall|i: int| 0 <= i < 256 ==> (bit256(self.root_chirho.0, i) <==> !is_zero256(#[trigger] self.leaves_chirho[i].0))
    }

    /// Number of values.
    pub open spec fn count_spec(&self) -> nat {
        count_leaves_wide256(self.root_chirho.0, self.leaves_chirho@, 256)
    }

    /// The values of the domain.
    pub open spec fn values(&self) -> Set<int> {
        Set::new(|v: int| self.has(v))
    }

    /// The count is the number of values of the domain.
    pub proof fn lemma_count_values(&self)
        ensures
            self.values().finite(),
            self.count_spec() == self.values().len(),
    {
        let f = |v: int| self.has(v);
        lemma_count65k(self.root_chirho.0, self.leaves_chirho@, f, 256);
        lemma_count_in_card(f, 0, 65536);
        assert(self.values() =~= window_set(f, 0, 65536));
    }

    /// The empty domain.
    pub fn empty_chirho() -> (r: Self)
        ensures
            r.wf(),
            is_zero256(r.root_chirho.0),
            forall|v: int| !r.has(v),
    {
        let z = BitVec256Chirho([0, 0, 0, 0]);
        proof {
            lemma_zero256(z.0);
        }
        Self { root_chirho: z, leaves_chirho: Box::new([z; 256]) }
    }

    /// All 65,536 values.
    pub fn full_chirho() -> (r: Self)
        ensures
            r.wf(),
            forall|v: int| r.has(v) == (0 <= v < 65536),
    {
        let o = BitVec256Chirho(prefix_words256(256));
        proof {
            lemma_zero256(o.0);
            assert(bit256(o.0, 0));
        }
        Self { root_chirho: o, leaves_chirho: Box::new([o; 256]) }
    }

    /// The values `0..n`.
    pub fn range_chirho(n_chirho: u32) -> (r: Self)
        requires
            n_chirho <= 65536,
        ensures
            r.wf(),
            forall|v: int| r.has(v) == (0 <= v < n_chirho),
    {
        let full_leaves_chirho = n_chirho / 256;
        let remainder_chirho = n_chirho % 256;
        let marked = if remainder_chirho > 0 { full_leaves_chirho + 1 } else { full_leaves_chirho };
        let root = BitVec256Chirho(prefix_words256(marked));
        let ones = BitVec256Chirho(prefix_words256(256));
        let part = BitVec256Chirho(prefix_words256(remainder_chirho));
        let z = BitVec256Chirho([0, 0, 0, 0]);
        let mut leaves = [z; 256];
        let mut i: usize = 0;
        while i < full_leaves_chirho as usize
            invariant
                i <= full_leaves_chirho <= 256,
                forall|j: int| 0 <= j < 256 ==> #[trigger] leaves[j] == if j < i { ones } else { BitVec256Chirho([0, 0, 0, 0]) },
            decreases full_leaves_chirho - i,
        {
            leaves[i] = ones;
            i = i + 1;
        }
        if remainder_chirho > 0 {
            leaves[full_leaves_chirho as usize] = part;
        }
        let r = Self { root_chirho: root, leaves_chirho: Box::new(leaves) };
        proof {
            lemma_zero256([0u64, 0u64, 0u64, 0u64]);
            lemma_zero256(ones.0);
            lemma_zero256(part.0);
            assert(bit256(ones.0, 0));
            assert forall|v: int| r.has(v) == (0 <= v < n_chirho) by {
                if 0 <= v < 65536 {
                    let k = v / 256;
                    if k == full_leaves_chirho && remainder_chirho > 0 {
                        assert(r.leaves_chirho[k] == part);
                    }
                }
            }
            assert forall|j: int| 0 <= j < 256 implies (bit256(r.root_chirho.0, j) <==> !is_zero256(#[trigger] r.leaves_chirho[j].0)) by {
                if j == full_leaves_chirho && remainder_chirho > 0 {
                    assert(bit256(part.0, 0));
                }
            }
        }
        r
    }

    /// Exactly the value `value_chirho` (below 65,536).
    pub fn singleton_chirho(value_chirho: u32) -> (r: Self)
        requires
            value_chirho < 65536,
        ensures
            r.wf(),
            forall|v: int| r.has(v) == (v == value_chirho),
    {
        let leaf_idx_chirho = (value_chirho / 256) as usize;
        let bit_idx_chirho = value_chirho % 256;
        let z = BitVec256Chirho([0, 0, 0, 0]);
        let mut leaves = [z; 256];
        let leaf = BitVec256Chirho(set_bit_words256([0, 0, 0, 0], bit_idx_chirho));
        leaves[leaf_idx_chirho] = leaf;
        let root = BitVec256Chirho(set_bit_words256([0, 0, 0, 0], leaf_idx_chirho as u32));
        let r = Self { root_chirho: root, leaves_chirho: Box::new(leaves) };
        proof {
            lemma_zero256([0u64, 0u64, 0u64, 0u64]);
            lemma_zero256(leaf.0);
            assert(bit256(leaf.0, bit_idx_chirho as int));
        }
        r
    }

    /// Is `value_chirho` in the domain?
    pub fn contains_chirho(&self, value_chirho: u32) -> (r: bool)
        ensures
            r == self.has(value_chirho as int),
    {
        if value_chirho >= 65536 {
            return false;
        }
        let leaf_idx_chirho = (value_chirho / 256) as usize;
        if !self.root_chirho.test_bit_chirho(leaf_idx_chirho as u32) {
            return false;
        }
        let bit_idx_chirho = value_chirho % 256;
        self.leaves_chirho[leaf_idx_chirho].test_bit_chirho(bit_idx_chirho)
    }

    /// Values in both domains; only leaves marked in both roots are visited.
    pub fn intersect_chirho(&self, other_chirho: &Self) -> (r: Self)
        ensures
            r.wf(),
            forall|v: int| r.has(v) == (self.has(v) && other_chirho.has(v)),
    {
        let new_root_chirho = self.root_chirho.and_chirho(other_chirho.root_chirho);
        proof {
            lemma_and256(self.root_chirho.0, other_chirho.root_chirho.0, new_root_chirho.0);
            lemma_zero256(new_root_chirho.0);
        }
        if new_root_chirho.is_zero_chirho() {
            let e = Self::empty_chirho();
            proof {
                assert forall|v: int| e.has(v) == (self.has(v) && other_chirho.has(v)) by {
                    if self.has(v) && other_chirho.has(v) {
                        assert(bit256(new_root_chirho.0, v / 256));
                    }
                }
            }
            return e;
        }
        let z = BitVec256Chirho([0, 0, 0, 0]);
        let mut new_leaves = [z; 256];
        let mut final_root: [u64; 4] = [0, 0, 0, 0];
        let mut i: u32 = 0;
        proof {
            lemma_zero256([0u64, 0u64, 0u64, 0u64]);
        }
        while i < 256
            invariant
                i <= 256,
                forall|k: int| #[trigger] bit256(new_root_chirho.0, k) == (bit256(self.root_chirho.0, k) && bit256(other_chirho.root_chirho.0, k)),
                forall|j: int, k: int|
                    0 <= j < 256 ==> #[trigger] bit256(new_leaves[j].0, k) == (j < i && bit256(new_root_chirho.0, j)
                        && bit256(self.leaves_chirho[j].0, k) && bit256(other_chirho.leaves_chirho[j].0, k)),
                forall|j: int| #[trigger] bit256(final_root, j) == (0 <= j < i && !is_zero256(new_leaves[j].0)),
                forall|j: int| 0 <= j < 256 ==> (is_zero256(#[trigger] new_leaves[j].0) == forall|k: int| !bit256(new_leaves[j].0, k)),
            decreases 256 - i,
        {
            let ghost prev_leaves = new_leaves;
            let ghost prev_root = final_root;
            let ghost mut leaf_g = prev_leaves[i as int].0;
            if new_root_chirho.test_bit_chirho(i) {
                let leaf_result_chirho = self.leaves_chirho[i as usize].and_chirho(other_chirho.leaves_chirho[i as usize]);
                proof {
                    lemma_and256(self.leaves_chirho[i as int].0, other_chirho.leaves_chirho[i as int].0, leaf_result_chirho.0);
                    lemma_zero256(leaf_result_chirho.0);
                    leaf_g = leaf_result_chirho.0;
                }
                if !leaf_result_chirho.is_zero_chirho() {
                    new_leaves[i as usize] = leaf_result_chirho;
                    final_root = set_bit_words256(final_root, i);
                }
            }
            proof {
                assert forall|j: int, k: int| 0 <= j < 256 implies #[trigger] bit256(new_leaves[j].0, k) == (j < i + 1 && bit256(new_root_chirho.0, j)
                    && bit256(self.leaves_chirho[j].0, k) && bit256(other_chirho.leaves_chirho[j].0, k)) by {
                    assert(bit256(prev_leaves[j].0, k) == (j < i && bit256(new_root_chirho.0, j)
                        && bit256(self.leaves_chirho[j].0, k) && bit256(other_chirho.leaves_chirho[j].0, k)));
                    if j == i {
                        assert(!bit256(prev_leaves[j].0, k));
                        if bit256(new_root_chirho.0, j) {
                            assert(bit256(leaf_g, k) == (bit256(self.leaves_chirho[j].0, k) && bit256(other_chirho.leaves_chirho[j].0, k)));
                            lemma_zero256(leaf_g);
                        }
                    } else {
                        assert(new_leaves[j] == prev_leaves[j]);
                    }
                }
                assert forall|j: int| 0 <= j < 256 implies (is_zero256(#[trigger] new_leaves[j].0) == forall|k: int| !bit256(new_leaves[j].0, k)) by {
                    lemma_zero256(new_leaves[j].0);
                }
                assert forall|j: int| #[trigger] bit256(final_root, j) == (0 <= j < i + 1 && !is_zero256(new_leaves[j].0)) by {
                    if 0 <= j < 256 {
                        lemma_zero256(new_leaves[j].0);
                        lemma_zero256(prev_leaves[j].0);
                        if j != i {
                            assert(new_leaves[j] == prev_leaves[j]);
                        }
                    }
                }
            }
            i = i + 1;
        }
        let r = Self { root_chirho: BitVec256Chirho(final_root), leaves_chirho: Box::new(new_leaves) };
        proof {
            assert forall|v: int| r.has(v) == (self.has(v) && other_chirho.has(v)) by {
                if 0 <= v < 65536 {
                    let a = v / 256;
                    let b = v % 256;
                    assert(bit256(new_leaves[a].0, b) == (bit256(new_root_chirho.0, a)
                        && bit256(self.leaves_chirho[a].0, b) && bit256(other_chirho.leaves_chirho[a].0, b)));
                    assert(is_zero256(new_leaves[a].0) == forall|k: int| !bit256(new_leaves[a].0, k));
                }
            }
        }
        r
    }

    /// No leaf is marked in the root.
    pub fn is_empty_chirho(&self) -> (r: bool)
        ensures
            r == is_zero256(self.root_chirho.0),
            self.wf() ==> (r <==> forall|v: int| !self.has(v)),
    {
        let r = self.root_chirho.is_zero_chirho();
        proof {
            lemma_zero256(self.root_chirho.0);
            if self.wf() && !r {
                let i = choose|i: int| bit256(self.root_chirho.0, i);
                lemma_zero256(self.leaves_chirho[i].0);
                let j = choose|j: int| bit256(self.leaves_chirho[i].0, j);
                assert(self.has(256 * i + j));
            }
        }
        r
    }

    /// Number of values in the domain.
    pub fn count_chirho(&self) -> (r: u32)
        ensures
            r == self.count_spec(),
            r == self.values().len(),
    {
        let mut count_chirho: u32 = 0;
        let mut i: u32 = 0;
        while i < 256
            invariant
                i <= 256,
                count_chirho == count_leaves_wide256(self.root_chirho.0, self.leaves_chirho@, i as nat),
            decreases 256 - i,
        {
            proof {
                lemma_count_leaves_wide256_bound(self.root_chirho.0, self.leaves_chirho@, (i + 1) as nat);
            }
            if self.root_chirho.test_bit_chirho(i) {
                count_chirho = count_chirho + self.leaves_chirho[i as usize].popcount_chirho();
            }
            i = i + 1;
        }
        proof {
            self.lemma_count_values();
        }
        count_chirho
    }
}

/// Sum of the counts of the 512-bit leaves `0..n` whose bit in a 512-bit root is set.
pub open spec fn count_leaves_wide512(root: [u64; 8], leaves: Seq<BitVec512Chirho>, n: nat) -> nat
    decreases n,
{
    if n == 0 {
        0
    } else {
        count_leaves_wide512(root, leaves, (n - 1) as nat) + if bit512(root, n - 1) {
            crate::hardware::popcount_words(leaves[n - 1].0@, 8)
        } else {
            0
        }
    }
}

pub proof fn lemma_count_leaves_wide512_bound(root: [u64; 8], leaves: Seq<BitVec512Chirho>, n: nat)
    ensures
        count_leaves_wide512(root, leaves, n) <= 512 * n,
    decreases n,
{
    if n > 0 {
        lemma_count_leaves_wide512_bound(root, leaves, (n - 1) as nat);
        crate::hardware::lemma_popcount_words_bound(leaves[n - 1].0@, 8);
    }
}

/// Two-level domain with 512-bit words: 512 x 512 = 262,144 values.
#[derive(Clone)]
pub struct Hierarchical262kWideChirho {
    /// Bit `i` set: leaf `i` is non-empty.
    pub root_chirho: BitVec512Chirho,
    /// Value `512 * i + j` is bit `j` of leaf `i`.
    pub leaves_chirho: Box<[BitVec512Chirho; 512]>,
}

impl Hierarchical262kWideChirho {
    /// Value `v` is in the domain.
    pub open spec fn has(&self, v: int) -> bool {
        0 <= v < 262144 && bit512(self.root_chirho.0, v / 512) && bit512(self.leaves_chirho[v / 512].0, v % 512)
    }

    /// The root marks exactly the non-empty leaves.
    pub open spec fn wf(&self) -> bool {
        forall|i: int| 0 <= i < 512 ==> (bit512(self.root_chirho.0, i) <==> !is_zero512(#[trigger] self.leaves_chirho[i].0))
    }

    /// Number of values.
    pub open spec fn count_spec(&self) -> nat {
        count_leaves_wide512(self.root_chirho.0, self.leaves_chirho@, 512)
    }

    /// The values of the domain.
    pub open spec fn values(&self) -> Set<int> {
        Set::new(|v: int| self.has(v))
    }

    /// The count is the number of values of the domain.
    pub proof fn lemma_count_values(&self)
        ensures
            self.values().finite(),
            self.count_spec() == self.values().len(),
    {
        let f = |v: int| self.has(v);
        lemma_count262k(self.root_chirho.0, self.leaves_chirho@, f, 512);
        lemma_count_in_card(f, 0, 262144);
        assert(self.values() =~= window_set(f, 0, 262144));
    }

    /// The empty domain.
    pub fn empty_chirho() -> (r: Self)
        ensures
            r.wf(),
            is_zero512(r.root_chirho.0),
            forall|v: int| !r.has(v),
    {
        let z = BitVec512Chirho([0, 0, 0, 0, 0, 0, 0, 0]);
        proof {
            lemma_zero512(z.0);
        }
        Self { root_chirho: z, leaves_chirho: Box::new([z; 512]) }
    }

    /// The values `0..n`.
    pub fn range_chirho(n_chirho: u32) -> (r: Self)
        requires
            n_chirho <= 262144,
        ensures
            r.wf(),
            forall|v: int| r.has(v) == (0 <= v < n_chirho),
    {
        let full_leaves_chirho = n_chirho / 512;
        let remainder_chirho = n_chirho % 512;
        let marked = if remainder_chirho > 0 { full_leaves_chirho + 1 } else { full_leaves_chirho };
        let root = BitVec512Chirho(prefix_words512(marked));
        let ones = BitVec512Chirho(prefix_words512(512));
        let part = BitVec512Chirho(prefix_words512(remainder_chirho));
        let z = BitVec512Chirho([0, 0, 0, 0, 0, 0, 0, 0]);
        let mut leaves = [z; 512];
        let mut i: usize = 0;
        while i < full_leaves_chirho as usize
            invariant
                i <= full_leaves_chirho <= 512,
                forall|j: int| 0 <= j < 512 ==> #[trigger] leaves[j] == if j < i { ones } else { BitVec512Chirho([0, 0, 0, 0, 0, 0, 0, 0]) },
            decreases full_leaves_chirho - i,
        {
            leaves[i] = ones;
            i = i + 1;
        }
        if remainder_chirho > 0 {
            leaves[full_leaves_chirho as usize] = part;
        }
        let r = Self { root_chirho: root, leaves_chirho: Box::new(leaves) };
        proof {
            lemma_zero512([0u64, 0u64, 0u64, 0u64, 0u64, 0u64, 0u64, 0u64]);
            lemma_zero512(ones.0);
            lemma_zero512(part.0);
            assert(bit512(ones.0, 0));
            assert forall|v: int| r.has(v) == (0 <= v < n_chirho) by {
                if 0 <= v < 262144 {
                    let k = v / 512;
                    if k == full_leaves_chirho && remainder_chirho > 0 {
                        assert(r.leaves_chirho[k] == part);
                    }
                }
            }
            assert forall|j: int| 0 <= j < 512 implies (bit512(r.root_chirho.0, j) <==> !is_zero512(#[trigger] r.leaves_chirho[j].0)) by {
                if j == full_leaves_chirho && remainder_chirho > 0 {
                    assert(bit512(part.0, 0));
                }
            }
        }
        r
    }

    /// Exactly the value `value_chirho` (below 262,144).
    pub fn singleton_chirho(value_chirho: u32) -> (r: Self)
        requires
            value_chirho < 262144,
        ensures
            r.wf(),
            forall|v: int| r.has(v) == (v == value_chirho),
    {
        let leaf_idx_chirho = (value_chirho / 512) as usize;
        let bit_idx_chirho = value_chirho % 512;
        let z = BitVec512Chirho([0, 0, 0, 0, 0, 0, 0, 0]);
        let mut leaves = [z; 512];
        let leaf = BitVec512Chirho(set_bit_words512([0, 0, 0, 0, 0, 0, 0, 0], bit_idx_chirho));
        leaves[leaf_idx_chirho] = leaf;
        let root = BitVec512Chirho(set_bit_words512([0, 0, 0, 0, 0, 0, 0, 0], leaf_idx_chirho as u32));
        let r = Self { root_chirho: root, leaves_chirho: Box::new(leaves) };
        proof {
            lemma_zero512([0u64, 0u64, 0u64, 0u64, 0u64, 0u64, 0u64, 0u64]);
            lemma_zero512(leaf.0);
            assert(bit512(leaf.0, bit_idx_chirho as int));
        }
        r
    }

    /// Is `value_chirho` in the domain?
    pub fn contains_chirho(&self, value_chirho: u32) -> (r: bool)
        ensures
            r == self.has(value_chirho as int),
    {
        if value_chirho >= 262144 {
            return false;
        }
        let leaf_idx_chirho = (value_chirho / 512) as usize;
        if !self.root_chirho.test_bit_chirho(leaf_idx_chirho as u32) {
            return false;
        }
        let bit_idx_chirho = value_chirho % 512;
        self.leaves_chirho[leaf_idx_chirho].test_bit_chirho(bit_idx_chirho)
    }

    /// Values in both domains; only leaves marked in both roots are visited.
    pub fn intersect_chirho(&self, other_chirho: &Self) -> (r: Self)
        ensures
            r.wf(),
            forall|v: int| r.has(v) == (self.has(v) && other_chirho.has(v)),
    {
        let new_root_chirho = self.root_chirho.and_chirho(other_chirho.root_chirho);
        proof {
            lemma_and512(self.root_chirho.0, other_chirho.root_chirho.0, new_root_chirho.0);
            lemma_zero512(new_root_chirho.0);
        }
        if new_root_chirho.is_zero_chirho() {
            let e = Self::empty_chirho();
            proof {
                assert forall|v: int| e.has(v) == (self.has(v) && other_chirho.has(v)) by {
                    if self.has(v) && other_chirho.has(v) {
                        assert(bit512(new_root_chirho.0, v / 512));
                    }
                }
            }
            return e;
        }
        let z = BitVec512Chirho([0, 0, 0, 0, 0, 0, 0, 0]);
        let mut new_leaves = [z; 512];
        let mut final_root: [u64; 8] = [0, 0, 0, 0, 0, 0, 0, 0];
        let mut i: u32 = 0;
        proof {
            lemma_zero512([0u64, 0u64, 0u64, 0u64, 0u64, 0u64, 0u64, 0u64]);
        }
        while i < 512
            invariant
                i <= 512,
                forall|k: int| #[trigger] bit512(new_root_chirho.0, k) == (bit512(self.root_chirho.0, k) && bit512(other_chirho.root_chirho.0, k)),
                forall|j: int, k: int|
                    0 <= j < 512 ==> #[trigger] bit512(new_leaves[j].0, k) == (j < i && bit512(new_root_chirho.0, j)
                        && bit512(self.leaves_chirho[j].0, k) && bit512(other_chirho.leaves_chirho[j].0, k)),
                forall|j: int| #[trigger] bit512(final_root, j) == (0 <= j < i && !is_zero512(new_leaves[j].0)),
                forall|j: int| 0 <= j < 512 ==> (is_zero512(#[trigger] new_leaves[j].0) == forall|k: int| !bit512(new_leaves[j].0, k)),
            decreases 512 - i,
        {
            let ghost prev_leaves = new_leaves;
            let ghost prev_root = final_root;
            let ghost mut leaf_g = prev_leaves[i as int].0;
            if new_root_chirho.test_bit_chirho(i) {
                let leaf_result_chirho = self.leaves_chirho[i as usize].and_chirho(other_chirho.leaves_chirho[i as usize]);
                proof {
                    lemma_and512(self.leaves_chirho[i as int].0, other_chirho.leaves_chirho[i as int].0, leaf_result_chirho.0);
                    lemma_zero512(leaf_result_chirho.0);
                    leaf_g = leaf_result_chirho.0;
                }
                if !leaf_result_chirho.is_zero_chirho() {
                    new_leaves[i as usize] = leaf_result_chirho;
                    final_root = set_bit_words512(final_root, i);
                }
            }
            proof {
                assert forall|j: int, k: int| 0 <= j < 512 implies #[trigger] bit512(new_leaves[j].0, k) == (j < i + 1 && bit512(new_root_chirho.0, j)
                    && bit512(self.leaves_chirho[j].0, k) && bit512(other_chirho.leaves_chirho[j].0, k)) by {
                    assert(bit512(prev_leaves[j].0, k) == (j < i && bit512(new_root_chirho.0, j)
                        && bit512(self.leaves_chirho[j].0, k) && bit512(other_chirho.leaves_chirho[j].0, k)));
                    if j == i {
                        assert(!bit512(prev_leaves[j].0, k));
                        if bit512(new_root_chirho.0, j) {
                            assert(bit512(leaf_g, k) == (bit512(self.leaves_chirho[j].0, k) && bit512(other_chirho.leaves_chirho[j].0, k)));
                            lemma_zero512(leaf_g);
                        }
                    } else {
                        assert(new_leaves[j] == prev_leaves[j]);
                    }
                }
                assert forall|j: int| 0 <= j < 512 implies (is_zero512(#[trigger] new_leaves[j].0) == forall|k: int| !bit512(new_leaves[j].0, k)) by {
                    lemma_zero512(new_leaves[j].0);
                }
                assert forall|j: int| #[trigger] bit512(final_root, j) == (0 <= j < i + 1 && !is_zero512(new_leaves[j].0)) by {
                    if 0 <= j < 512 {
                        lemma_zero512(new_leaves[j].0);
                        lemma_zero512(prev_leaves[j].0);
                        if j != i {
                            assert(new_leaves[j] == prev_leaves[j]);
                        }
                    }
                }
            }
            i = i + 1;
        }
        let r = Self { root_chirho: BitVec512Chirho(final_root), leaves_chirho: Box::new(new_leaves) };
        proof {
            assert forall|v: int| r.has(v) == (self.has(v) && other_chirho.has(v)) by {
                if 0 <= v < 262144 {
                    let a = v / 512;
                    let b = v % 512;
                    assert(bit512(new_leaves[a].0, b) == (bit512(new_root_chirho.0, a)
                        && bit512(self.leaves_chirho[a].0, b) && bit512(other_chirho.leaves_chirho[a].0, b)));
                    assert(is_zero512(new_leaves[a].0) == forall|k: int| !bit512(new_leaves[a].0, k));
                }
            }
        }
        r
    }

    /// No leaf is marked in the root.
    pub fn is_empty_chirho(&self) -> (r: bool)
        ensures
            r == is_zero512(self.root_chirho.0),
            self.wf() ==> (r <==> forall|v: int| !self.has(v)),
    {
        let r = self.root_chirho.is_zero_chirho();
        proof {
            lemma_zero512(self.root_chirho.0);
            if self.wf() && !r {
                let i = choose|i: int| bit512(self.root_chirho.0, i);
                lemma_zero512(self.leaves_chirho[i].0);
                let j = choose|j: int| bit512(self.leaves_chirho[i].0, j);
                assert(self.has(512 * i + j));
            }
        }
        r
    }

    /// Number of values in the domain.
    pub fn count_chirho(&self) -> (r: u32)
        ensures
            r == self.count_spec(),
            r == self.values().len(),
    {
        let mut count_chirho: u32 = 0;
        let mut i: u32 = 0;
        while i < 512
            invariant
                i <= 512,
                count_chirho == count_leaves_wide512(self.root_chirho.0, self.leaves_chirho@, i as nat),
            decreases 512 - i,
        {
            proof {
                lemma_count_leaves_wide512_bound(self.root_chirho.0, self.leaves_chirho@, (i + 1) as nat);
            }
            if self.root_chirho.test_bit_chirho(i) {
                count_chirho = count_chirho + self.leaves_chirho[i as usize].popcount_chirho();
            }
            i = i + 1;
        }
        proof {
            self.lemma_count_values();
        }
        count_chirho
    }
}


/// Values of a 16k domain below `256 * n`, counted leaf by leaf.
proof fn lemma_count16k(root: u64, leaves: Seq<BitVec256Chirho>, f: spec_fn(int) -> bool, n: nat)
    requires
        n <= 64,
        leaves.len() == 64,
        forall|v: int| 0 <= v < 16384 ==> #[trigger] f(v) == (bit64(root, v / 256) && bit256(leaves[v / 256].0, v % 256)),
    ensures
        count_in(f, 0, 256 * n) == count_leaves256(root, leaves, n),
    decreases n,
{
    if n > 0 {
        let m = (n - 1) as nat;
        lemma_count16k(root, leaves, f, m);
        lemma_count_in_split(f, 0, 256 * m, 256);
        assert(256 * m + 256 == 256 * n);
        let base: int = (256 * m) as int;
        if bit64(root, m as int) {
            let w = leaves[m as int].0;
            assert forall|v: int| base <= v < base + 64 * 4 implies #[trigger] f(v) == bit64(w@[(v - base) / 64], (v - base) % 64) by {
                assert(v / 256 == m && v % 256 == v - base);
            }
            lemma_count_words(w@, 4, f, base);
            reveal_with_fuel(popcount_words, 5);
        } else {
            assert forall|v: int| base <= v < base + 256 implies !#[trigger] f(v) by {
                assert(v / 256 == m);
            }
            lemma_count_in_none(f, base, 256);
        }
    }
}

/// Values of a 65k domain below `256 * n`, counted leaf by leaf.
proof fn lemma_count65k(root: [u64; 4], leaves: Seq<BitVec256Chirho>, f: spec_fn(int) -> bool, n: nat)
    requires
        n <= 256,
        leaves.len() == 256,
        forall|v: int| 0 <= v < 65536 ==> #[trigger] f(v) == (bit256(root, v / 256) && bit256(leaves[v / 256].0, v % 256)),
    ensures
        count_in(f, 0, 256 * n) == count_leaves_wide256(root, leaves, n),
    decreases n,
{
    if n > 0 {
        let m = (n - 1) as nat;
        lemma_count65k(root, leaves, f, m);
        lemma_count_in_split(f, 0, 256 * m, 256);
        assert(256 * m + 256 == 256 * n);
        let base: int = (256 * m) as int;
        if bit256(root, m as int) {
            let w = leaves[m as int].0;
            assert forall|v: int| base <= v < base + 64 * 4 implies #[trigger] f(v) == bit64(w@[(v - base) / 64], (v - base) % 64) by {
                assert(v / 256 == m && v % 256 == v - base);
            }
            lemma_count_words(w@, 4, f, base);
            reveal_with_fuel(popcount_words, 5);
        } else {
            assert forall|v: int| base <= v < base + 256 implies !#[trigger] f(v) by {
                assert(v / 256 == m);
            }
            lemma_count_in_none(f, base, 256);
        }
    }
}

/// Values of a 262k wide domain below `512 * n`, counted leaf by leaf.
proof fn lemma_count262k(root: [u64; 8], leaves: Seq<BitVec512Chirho>, f: spec_fn(int) -> bool, n: nat)
    requires
        n <= 512,
        leaves.len() == 512,
        forall|v: int| 0 <= v < 262144 ==> #[trigger] f(v) == (bit512(root, v / 512) && bit512(leaves[v / 512].0, v % 512)),
    ensures
        count_in(f, 0, 512 * n) == count_leaves_wide512(root, leaves, n),
    decreases n,
{
    if n > 0 {
        let m = (n - 1) as nat;
        lemma_count262k(root, leaves, f, m);
        lemma_count_in_split(f, 0, 512 * m, 512);
        assert(512 * m + 512 == 512 * n);
        let base: int = (512 * m) as int;
        if bit512(root, m as int) {
            let w = leaves[m as int].0;
            assert forall|v: int| base <= v < base + 64 * 8 implies #[trigger] f(v) == bit64(w@[(v - base) / 64], (v - base) % 64) by {
                assert(v / 512 == m && v % 512 == v - base);
            }
            lemma_count_words(w@, 8, f, base);
        } else {
            assert forall|v: int| base <= v < base + 512 implies !#[trigger] f(v) by {
                assert(v / 512 == m);
            }
            lemma_count_in_none(f, base, 512);
        }
    }
}


proof fn lemma_increasing_ge(r: Seq<u32>, k: int)
    requires
        forall|a: int, b: int| 0 <= a < b < r.len() ==> #[trigger] r[a] < #[trigger] r[b],
        0 <= k < r.len(),
    ensures
        r[k] >= k,
    decreases k,
{
    if k > 0 {
        lemma_increasing_ge(r, k - 1);
        assert(r[k - 1] < r[k]);
    }
}

proof fn lemma_increasing_prefix(r: Seq<u32>, n: nat, k: int)
    requires
        forall|a: int, b: int| 0 <= a < b < r.len() ==> #[trigger] r[a] < #[trigger] r[b],
        forall|v: int| 0 <= v < n ==> #[trigger] r.contains(v as u32),
        n <= u32::MAX + 1,
        0 <= k < n,
    ensures
        k < r.len(),
        forall|i: int| 0 <= i <= k ==> i < r.len() && #[trigger] r[i] == i,
    decreases k,
{
    if k > 0 {
        lemma_increasing_prefix(r, n, k - 1);
    }
    assert(r.contains(k as u32));
    let j = choose|j: int| 0 <= j < r.len() && r[j] == k as u32;
    lemma_increasing_ge(r, j);
    if j < k {
        assert(r[j] == j);
    }
}

/// A strictly increasing list of values below `n` that holds each of them is
/// `0, 1, ..., n - 1`: so the listing of a domain holding exactly `0..n` is
/// that sequence.
pub proof fn lemma_increasing_cover(r: Seq<u32>, n: nat)
    requires
        forall|a: int, b: int| 0 <= a < b < r.len() ==> #[trigger] r[a] < #[trigger] r[b],
        forall|k: int| 0 <= k < r.len() ==> #[trigger] r[k] < n,
        forall|v: int| 0 <= v < n ==> #[trigger] r.contains(v as u32),
        n <= u32::MAX + 1,
    ensures
        r == Seq::new(n, |i: int| i as u32),
{
    if n > 0 {
        lemma_increasing_prefix(r, n, n - 1);
    }
    if r.len() > n {
        lemma_increasing_ge(r, n as int);
        assert(r[n as int] < n);
    }
    assert(r.len() == n);
    assert forall|i: int| 0 <= i < n implies r[i] == Seq::new(n, |i: int| i as u32)[i] by {
        assert(r[i] == i);
    }
    assert(r =~= Seq::new(n, |i: int| i as u32));
}
} // verus!
