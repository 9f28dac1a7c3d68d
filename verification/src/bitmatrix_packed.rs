//! Packed 64-bit words and bit matrices: a fixed 64 x 64 matrix with one word
//! per row, and a dense matrix of any shape packed into a vector of words.
//! Boolean matrix product is relation composition.

use vstd::prelude::*;
use vstd::std_specs::bits::u64_trailing_zeros;
use crate::bits::{
    bit64, popcount64, popcount_u64, lemma_clear_lowest, lemma_or_bits, lemma_shl_bits,
    lemma_zero_iff_no_bits, lemma_and_bits, lemma_not_bits, lemma_popcount64_bound,
};

verus! {

/// One 64-bit word of packed bits.
#[derive(Clone, Copy, PartialEq, Eq, Structural, Default, Debug)]
pub struct Word64Chirho(pub u64);

impl Word64Chirho {
    #[allow(non_snake_case)]
    pub fn ZERO_CHIRHO() -> (r: Self)
        ensures
            r.0 == 0,
    {
        Self(0)
    }

    #[allow(non_snake_case)]
    pub fn ONES_CHIRHO() -> (r: Self)
        ensures
            r.0 == u64::MAX,
    {
        Self(u64::MAX)
    }

    pub fn new_chirho(val_chirho: u64) -> (r: Self)
        ensures
            r.0 == val_chirho,
    {
        Self(val_chirho)
    }

    pub fn popcount_chirho(self) -> (r: u32)
        ensures
            r == popcount64(self.0),
    {
        popcount_u64(self.0)
    }

    pub fn is_zero_chirho(self) -> (r: bool)
        ensures
            r == (self.0 == 0),
    {
        self.0 == 0
    }

    pub fn get_bit_chirho(self, idx_chirho: u32) -> (r: bool)
        requires
            idx_chirho < 64,
        ensures
            r == bit64(self.0, idx_chirho as int),
    {
        (self.0 >> idx_chirho) & 1 == 1
    }

    pub fn set_bit_chirho(self, idx_chirho: u32) -> (r: Self)
        requires
            idx_chirho < 64,
        ensures
            r.0 == self.0 | (1u64 << idx_chirho),
            forall|j: int| #[trigger] bit64(r.0, j) == (bit64(self.0, j) || j == idx_chirho),
    {
        let r = Self(self.0 | (1u64 << idx_chirho));
        proof {
            assert forall|j: int| #[trigger] bit64(r.0, j) == (bit64(self.0, j) || j == idx_chirho) by {
                lemma_or_bits(self.0, 1u64 << idx_chirho, j);
                lemma_shl_bits(idx_chirho as u64, j);
            }
        }
        r
    }

    pub fn clear_bit_chirho(self, idx_chirho: u32) -> (r: Self)
        requires
            idx_chirho < 64,
        ensures
            r.0 == self.0 & !(1u64 << idx_chirho),
            forall|j: int| #[trigger] bit64(r.0, j) == (bit64(self.0, j) && j != idx_chirho),
    {
        let r = Self(self.0 & !(1u64 << idx_chirho));
        proof {
            assert forall|j: int| #[trigger] bit64(r.0, j) == (bit64(self.0, j) && j != idx_chirho) by {
                lemma_and_bits(self.0, !(1u64 << idx_chirho), j);
                lemma_not_bits(1u64 << idx_chirho, j);
                lemma_shl_bits(idx_chirho as u64, j);
            }
        }
        r
    }

    pub fn trailing_zeros_chirho(self) -> (r: u32)
        ensures
            r == u64_trailing_zeros(self.0),
    {
        self.0.trailing_zeros()
    }

    /// Remove and return the lowest set bit.
    pub fn pop_lsb_chirho(&mut self) -> (r: Option<u32>)
        ensures
            old(self).0 == 0 ==> r is None && final(self).0 == 0,
            old(self).0 != 0 ==> r == Some(u64_trailing_zeros(old(self).0)) && final(self).0 == old(
                self,
            ).0 & ((old(self).0 - 1) as u64),
    {
        if self.0 == 0 {
            return None;
        }
        let idx_chirho = self.0.trailing_zeros();
        self.0 = self.0 & (self.0 - 1);
        Some(idx_chirho)
    }

    /// The positions of the set bits in increasing order.
    pub fn iter_ones_chirho(self) -> (r: Vec<u32>)
        ensures
            forall|k: int| 0 <= k < r.len() ==> #[trigger] r[k] < 64 && bit64(self.0, r[k] as int),
            forall|k: int, l: int| 0 <= k < l < r.len() ==> #[trigger] r[k] < #[trigger] r[l],
            forall|j: int| #[trigger] bit64(self.0, j) ==> r@.contains(j as u32),
    {
        let mut out: Vec<u32> = Vec::new();
        let mut j: u32 = 0;
        while j < 64
            invariant
                j <= 64,
                forall|k: int| 0 <= k < out.len() ==> #[trigger] out[k] < j && bit64(self.0, out[k] as int),
                forall|k: int, l: int| 0 <= k < l < out.len() ==> #[trigger] out[k] < #[trigger] out[l],
                forall|i: int| 0 <= i < j && #[trigger] bit64(self.0, i) ==> out@.contains(i as u32),
            decreases 64 - j,
        {
            if self.get_bit_chirho(j) {
                let ghost prev = out@;
                out.push(j);
                proof {
                    assert forall|i: int| 0 <= i < j + 1 && #[trigger] bit64(self.0, i) implies out@.contains(i as u32) by {
                        if i == j {
                            assert(out@[out.len() - 1] == j);
                        } else {
                            let idx = choose|idx: int| 0 <= idx < prev.len() && prev[idx] == i as u32;
                            assert(out@[idx] == i as u32);
                        }
                    }
                }
            }
            j = j + 1;
        }
        out
    }
}

impl core::ops::BitAnd for Word64Chirho {
    type Output = Self;

    fn bitand(self, rhs_chirho: Self) -> (r: Self)
        ensures
            r.0 == self.0 & rhs_chirho.0,
    {
        Self(self.0 & rhs_chirho.0)
    }
}

impl core::ops::BitOr for Word64Chirho {
    type Output = Self;

    fn bitor(self, rhs_chirho: Self) -> (r: Self)
        ensures
            r.0 == self.0 | rhs_chirho.0,
    {
        Self(self.0 | rhs_chirho.0)
    }
}

impl core::ops::BitXor for Word64Chirho {
    type Output = Self;

    fn bitxor(self, rhs_chirho: Self) -> (r: Self)
        ensures
            r.0 == self.0 ^ rhs_chirho.0,
    {
        Self(self.0 ^ rhs_chirho.0)
    }
}

impl core::ops::Not for Word64Chirho {
    type Output = Self;

    fn not(self) -> (r: Self)
        ensures
            r.0 == !self.0,
    {
        Self(!self.0)
    }
}


impl vstd::std_specs::ops::BitAndSpecImpl for Word64Chirho {
    open spec fn obeys_bitand_spec() -> bool {
        true
    }

    open spec fn bitand_req(self, rhs: Self) -> bool {
        true
    }

    open spec fn bitand_spec(self, rhs: Self) -> Self {
        Word64Chirho(self.0 & rhs.0)
    }
}

impl vstd::std_specs::ops::BitOrSpecImpl for Word64Chirho {
    open spec fn obeys_bitor_spec() -> bool {
        true
    }

    open spec fn bitor_req(self, rhs: Self) -> bool {
        true
    }

    open spec fn bitor_spec(self, rhs: Self) -> Self {
        Word64Chirho(self.0 | rhs.0)
    }
}

impl vstd::std_specs::ops::BitXorSpecImpl for Word64Chirho {
    open spec fn obeys_bitxor_spec() -> bool {
        true
    }

    open spec fn bitxor_req(self, rhs: Self) -> bool {
        true
    }

    open spec fn bitxor_spec(self, rhs: Self) -> Self {
        Word64Chirho(self.0 ^ rhs.0)
    }
}

impl vstd::std_specs::ops::NotSpecImpl for Word64Chirho {
    open spec fn obeys_not_spec() -> bool {
        true
    }

    open spec fn not_req(self) -> bool {
        true
    }

    open spec fn not_spec(self) -> Self {
        Word64Chirho(!self.0)
    }
}


/// Sum of the counts of the first `n` rows.
pub open spec fn total_bits(rows: Seq<Word64Chirho>, n: nat) -> nat
    decreases n,
{
    if n == 0 {
        0
    } else {
        total_bits(rows, (n - 1) as nat) + popcount64(rows[n - 1].0)
    }
}

proof fn lemma_total_bits_bound(rows: Seq<Word64Chirho>, n: nat)
    ensures
        total_bits(rows, n) <= 64 * n,
    decreases n,
{
    if n > 0 {
        lemma_total_bits_bound(rows, (n - 1) as nat);
        lemma_popcount64_bound(rows[n - 1].0);
    }
}

proof fn lemma_total_bits_mono(a: Seq<Word64Chirho>, b: Seq<Word64Chirho>, n: nat)
    requires
        n <= a.len(),
        n <= b.len(),
        forall|i: int, j: int| 0 <= i < n && #[trigger] bit64(a[i].0, j) ==> bit64(b[i].0, j),
    ensures
        total_bits(a, n) <= total_bits(b, n),
        (exists|i: int| 0 <= i < n && a[i] != b[i]) ==> total_bits(a, n) < total_bits(b, n),
    decreases n,
{
    if n > 0 {
        lemma_total_bits_mono(a, b, (n - 1) as nat);
        crate::bits::lemma_popcount64_mono(a[n - 1].0, b[n - 1].0);
        if exists|i: int| 0 <= i < n && a[i] != b[i] {
            let i = choose|i: int| 0 <= i < n && a[i] != b[i];
            if i < n - 1 {
                assert(exists|i: int| 0 <= i < n - 1 && a[i] != b[i]);
            } else {
                assert(a[n - 1].0 != b[n - 1].0);
            }
        }
    }
}

/// `s` contains the cells of `m` and is closed under composition through rows below `nr`.
pub open spec fn closed_superset(s: spec_fn(int, int) -> bool, m: BitMatrix64Chirho, nr: int) -> bool {
    &&& forall|i: int, j: int| #[trigger] m.cell(i, j) ==> s(i, j)
    &&& forall|i: int, k: int, j: int|
        0 <= i < nr && 0 <= k < 64 && 0 <= j < 64 && #[trigger] s(i, k) && #[trigger] s(k, j) ==> s(i, j)
}

/// Fixed 64 x 64 bit matrix, one word per row.
#[derive(PartialEq, Eq)]
pub struct BitMatrix64Chirho {
    rows_chirho: [Word64Chirho; 64],
    num_rows_chirho: u8,
    num_cols_chirho: u8,
}

impl BitMatrix64Chirho {
    #[verifier::type_invariant]
    spec fn inv(self) -> bool {
        self.num_rows_chirho <= 64 && self.num_cols_chirho <= 64
    }

    /// Cell `(i, j)` is set.
    pub closed spec fn cell(self, i: int, j: int) -> bool {
        0 <= i < 64 && bit64(self.rows_chirho[i].0, j)
    }

    /// Number of rows the matrix was made with.
    pub closed spec fn nrows(self) -> nat {
        self.num_rows_chirho as nat
    }

    /// Number of columns the matrix was made with.
    pub closed spec fn ncols(self) -> nat {
        self.num_cols_chirho as nat
    }

    /// The words of the rows.
    pub closed spec fn row_words(self) -> Seq<Word64Chirho> {
        self.rows_chirho@
    }

    pub proof fn lemma_cell_range(self)
        ensures
            forall|i: int, j: int| #[trigger] self.cell(i, j) ==> 0 <= i < 64 && 0 <= j < 64,
            self.row_words().len() == 64,
            forall|i: int, j: int| 0 <= i < 64 ==> #[trigger] self.cell(i, j) == bit64(self.row_words()[i].0, j),
    {
    }

    /// Same shape and same cells.
    pub open spec fn same(self, other: Self) -> bool {
        self.nrows() == other.nrows() && self.ncols() == other.ncols() && self.row_words() == other.row_words()
    }

    /// An all-zero matrix of the given shape (both at most 64).
    pub fn new_chirho(rows_chirho: u8, cols_chirho: u8) -> (r: Self)
        requires
            rows_chirho <= 64 && cols_chirho <= 64,
        ensures
            r.nrows() == rows_chirho && r.ncols() == cols_chirho,
            forall|i: int, j: int| !#[trigger] r.cell(i, j),
    {
        proof {
            lemma_zero_iff_no_bits(0);
        }
        Self { rows_chirho: [Word64Chirho(0); 64], num_rows_chirho: rows_chirho, num_cols_chirho: cols_chirho }
    }

    pub fn zeros_chirho(rows_chirho: u8, cols_chirho: u8) -> (r: Self)
        requires
            rows_chirho <= 64 && cols_chirho <= 64,
        ensures
            r.nrows() == rows_chirho && r.ncols() == cols_chirho,
            forall|i: int, j: int| !#[trigger] r.cell(i, j),
    {
        Self::new_chirho(rows_chirho, cols_chirho)
    }

    /// The `n x n` identity.
    pub fn identity_chirho(n_chirho: u8) -> (r: Self)
        requires
            n_chirho <= 64,
        ensures
            r.nrows() == n_chirho && r.ncols() == n_chirho,
            forall|i: int, j: int| #[trigger] r.cell(i, j) == (0 <= i < n_chirho && i == j),
    {
        let mut m_chirho = Self::new_chirho(n_chirho, n_chirho);
        let mut i: u8 = 0;
        while i < n_chirho
            invariant
                i <= n_chirho <= 64,
                m_chirho.num_rows_chirho == n_chirho && m_chirho.num_cols_chirho == n_chirho,
                forall|a: int, b: int| #[trigger] m_chirho.cell(a, b) == (0 <= a < i && a == b),
            decreases n_chirho - i,
        {
            let ghost prev = m_chirho;
            m_chirho.rows_chirho[i as usize] = Word64Chirho::new_chirho(1u64 << i);
            proof {
                assert forall|a: int, b: int| #[trigger] m_chirho.cell(a, b) == (0 <= a < i + 1 && a == b) by {
                    if a == i {
                        lemma_shl_bits(i as u64, b);
                    } else {
                        assert(prev.cell(a, b) == m_chirho.cell(a, b));
                    }
                }
            }
            i = i + 1;
        }
        m_chirho
    }

    /// Cell `(row, col)`.
    pub fn get_chirho(&self, row_chirho: u8, col_chirho: u8) -> (r: bool)
        requires
            row_chirho < 64 && col_chirho < 64,
        ensures
            r == self.cell(row_chirho as int, col_chirho as int),
    {
        self.rows_chirho[row_chirho as usize].get_bit_chirho(col_chirho as u32)
    }

    /// Set cell `(row, col)`.
    pub fn set_chirho(&mut self, row_chirho: u8, col_chirho: u8)
        requires
            row_chirho < 64 && col_chirho < 64,
        ensures
            final(self).nrows() == old(self).nrows() && final(self).ncols() == old(self).ncols(),
            forall|i: int, j: int| #[trigger] final(self).cell(i, j) == (old(self).cell(i, j) || (i == row_chirho && j == col_chirho)),
    {
        proof {
            use_type_invariant(&*self);
        }
        let ghost prev = *self;
        let w = self.rows_chirho[row_chirho as usize].set_bit_chirho(col_chirho as u32);
        self.rows_chirho[row_chirho as usize] = w;
        proof {
            assert forall|i: int, j: int| #[trigger] self.cell(i, j) == (prev.cell(i, j) || (i == row_chirho && j == col_chirho)) by {
                if i != row_chirho && 0 <= i < 64 {
                    assert(self.rows_chirho[i] == prev.rows_chirho[i]);
                }
            }
        }
    }

    /// Clear cell `(row, col)`.
    pub fn clear_chirho(&mut self, row_chirho: u8, col_chirho: u8)
        requires
            row_chirho < 64 && col_chirho < 64,
        ensures
            final(self).nrows() == old(self).nrows() && final(self).ncols() == old(self).ncols(),
            forall|i: int, j: int| #[trigger] final(self).cell(i, j) == (old(self).cell(i, j) && !(i == row_chirho && j == col_chirho)),
    {
        proof {
            use_type_invariant(&*self);
        }
        let ghost prev = *self;
        let w = self.rows_chirho[row_chirho as usize].clear_bit_chirho(col_chirho as u32);
        self.rows_chirho[row_chirho as usize] = w;
        proof {
            assert forall|i: int, j: int| #[trigger] self.cell(i, j) == (prev.cell(i, j) && !(i == row_chirho && j == col_chirho)) by {
                if i != row_chirho && 0 <= i < 64 {
                    assert(self.rows_chirho[i] == prev.rows_chirho[i]);
                }
            }
        }
    }

    /// Cell-wise AND; the shape is the larger of the two.
    pub fn and_chirho(&self, other_chirho: &Self) -> (r: Self)
        ensures
            r.nrows() == if self.nrows() >= other_chirho.nrows() { self.nrows() } else { other_chirho.nrows() },
            r.ncols() == if self.ncols() >= other_chirho.ncols() { self.ncols() } else { other_chirho.ncols() },
            forall|i: int, j: int| #[trigger] r.cell(i, j) == (self.cell(i, j) && other_chirho.cell(i, j)),
    {
        proof {
            use_type_invariant(self);
            use_type_invariant(other_chirho);
        }
        let nr = if self.num_rows_chirho >= other_chirho.num_rows_chirho { self.num_rows_chirho } else { other_chirho.num_rows_chirho };
        let nc = if self.num_cols_chirho >= other_chirho.num_cols_chirho { self.num_cols_chirho } else { other_chirho.num_cols_chirho };
        let mut result_chirho = Self::new_chirho(nr, nc);
        let mut i: usize = 0;
        while i < 64
            invariant
                i <= 64,
                result_chirho.num_rows_chirho == nr && result_chirho.num_cols_chirho == nc,
                nr <= 64 && nc <= 64,
                forall|a: int, b: int| #[trigger] result_chirho.cell(a, b) == (a < i && self.cell(a, b) && other_chirho.cell(a, b)),
            decreases 64 - i,
        {
            let ghost prev = result_chirho;
            result_chirho.rows_chirho[i] = self.rows_chirho[i] & other_chirho.rows_chirho[i];
            proof {
                assert forall|a: int, b: int| #[trigger] result_chirho.cell(a, b) == (a < i + 1 && self.cell(a, b) && other_chirho.cell(a, b)) by {
                    if a == i {
                        lemma_and_bits(self.rows_chirho[a].0, other_chirho.rows_chirho[a].0, b);
                    } else {
                        assert(prev.cell(a, b) == result_chirho.cell(a, b));
                    }
                }
            }
            i = i + 1;
        }
        result_chirho
    }

    /// Cell-wise OR; the shape is the larger of the two.
    pub fn or_chirho(&self, other_chirho: &Self) -> (r: Self)
        ensures
            r.nrows() == if self.nrows() >= other_chirho.nrows() { self.nrows() } else { other_chirho.nrows() },
            r.ncols() == if self.ncols() >= other_chirho.ncols() { self.ncols() } else { other_chirho.ncols() },
            forall|i: int, j: int| #[trigger] r.cell(i, j) == (self.cell(i, j) || other_chirho.cell(i, j)),
    {
        proof {
            use_type_invariant(self);
            use_type_invariant(other_chirho);
        }
        let nr = if self.num_rows_chirho >= other_chirho.num_rows_chirho { self.num_rows_chirho } else { other_chirho.num_rows_chirho };
        let nc = if self.num_cols_chirho >= other_chirho.num_cols_chirho { self.num_cols_chirho } else { other_chirho.num_cols_chirho };
        let mut result_chirho = Self::new_chirho(nr, nc);
        let mut i: usize = 0;
        while i < 64
            invariant
                i <= 64,
                result_chirho.num_rows_chirho == nr && result_chirho.num_cols_chirho == nc,
                nr <= 64 && nc <= 64,
                forall|a: int, b: int| #[trigger] result_chirho.cell(a, b) == (a < i && (self.cell(a, b) || other_chirho.cell(a, b))),
            decreases 64 - i,
        {
            let ghost prev = result_chirho;
            result_chirho.rows_chirho[i] = self.rows_chirho[i] | other_chirho.rows_chirho[i];
            proof {
                assert forall|a: int, b: int| #[trigger] result_chirho.cell(a, b) == (a < i + 1 && (self.cell(a, b) || other_chirho.cell(a, b))) by {
                    if a == i {
                        lemma_or_bits(self.rows_chirho[a].0, other_chirho.rows_chirho[a].0, b);
                    } else {
                        assert(prev.cell(a, b) == result_chirho.cell(a, b));
                    }
                }
            }
            i = i + 1;
        }
        result_chirho
    }

    /// Boolean product: cell `(i, j)` when some `k` has `(i, k)` here and `(k, j)` in `other`
    /// (rows from the first matrix's row count on stay empty).
    pub fn matmul_chirho(&self, other_chirho: &Self) -> (r: Self)
        ensures
            r.nrows() == self.nrows() && r.ncols() == other_chirho.ncols(),
            forall|i: int, j: int| #[trigger] r.cell(i, j) == (i < self.nrows() && exists|k: int|
                0 <= k < 64 && #[trigger] self.cell(i, k) && other_chirho.cell(k, j)),
    {
        proof {
            use_type_invariant(self);
            use_type_invariant(other_chirho);
        }
        let mut result_chirho = Self::new_chirho(self.num_rows_chirho, other_chirho.num_cols_chirho);
        let mut i: u8 = 0;
        while i < self.num_rows_chirho
            invariant
                i <= self.num_rows_chirho <= 64,
                other_chirho.num_cols_chirho <= 64,
                result_chirho.num_rows_chirho == self.num_rows_chirho && result_chirho.num_cols_chirho == other_chirho.num_cols_chirho,
                forall|a: int, b: int| #[trigger] result_chirho.cell(a, b) == (a < i && exists|k: int|
                    0 <= k < 64 && #[trigger] self.cell(a, k) && other_chirho.cell(k, b)),
            decreases self.num_rows_chirho - i,
        {
            let row_a_chirho = self.rows_chirho[i as usize];
            let mut acc: u64 = 0;
            let mut k: u32 = 0;
            proof {
                lemma_zero_iff_no_bits(0);
            }
            while k < 64
                invariant
                    k <= 64,
                    i < 64,
                    row_a_chirho == self.rows_chirho[i as int],
                    forall|b: int| #[trigger] bit64(acc, b) == exists|kk: int|
                        0 <= kk < k && #[trigger] self.cell(i as int, kk) && other_chirho.cell(kk, b),
                decreases 64 - k,
            {
                let ghost prev = acc;
                if row_a_chirho.get_bit_chirho(k) {
                    acc = acc | other_chirho.rows_chirho[k as usize].0;
                }
                proof {
                    assert forall|b: int| #[trigger] bit64(acc, b) == exists|kk: int|
                        0 <= kk < k + 1 && #[trigger] self.cell(i as int, kk) && other_chirho.cell(kk, b) by {
                        lemma_or_bits(prev, other_chirho.rows_chirho[k as int].0, b);
                        if bit64(acc, b) && !bit64(prev, b) {
                            assert(self.cell(i as int, k as int) && other_chirho.cell(k as int, b));
                        }
                        if exists|kk: int| 0 <= kk < k + 1 && #[trigger] self.cell(i as int, kk) && other_chirho.cell(kk, b) {
                            let kk = choose|kk: int| 0 <= kk < k + 1 && #[trigger] self.cell(i as int, kk) && other_chirho.cell(kk, b);
                            if kk < k {
                                assert(bit64(prev, b));
                            }
                        }
                    }
                }
                k = k + 1;
            }
            let ghost prev_m = result_chirho;
            result_chirho.rows_chirho[i as usize] = Word64Chirho(acc);
            proof {
                assert forall|a: int, b: int| #[trigger] result_chirho.cell(a, b) == (a < i + 1 && exists|k: int|
                    0 <= k < 64 && #[trigger] self.cell(a, k) && other_chirho.cell(k, b)) by {
                    if a != i {
                        assert(prev_m.cell(a, b) == result_chirho.cell(a, b));
                    }
                }
            }
            i = i + 1;
        }
        proof {
            assert forall|a: int, b: int| #[trigger] result_chirho.cell(a, b) == (a < self.nrows() && exists|k: int|
                0 <= k < 64 && #[trigger] self.cell(a, k) && other_chirho.cell(k, b)) by {
            }
        }
        result_chirho
    }

    /// Transpose: cell `(j, i)` of the result is cell `(i, j)` for the rows in use.
    pub fn transpose_chirho(&self) -> (r: Self)
        ensures
            r.nrows() == self.ncols() && r.ncols() == self.nrows(),
            forall|a: int, b: int| #[trigger] r.cell(a, b) == (0 <= b < self.nrows() && self.cell(b, a)),
    {
        proof {
            use_type_invariant(self);
        }
        let mut result_chirho = Self::new_chirho(self.num_cols_chirho, self.num_rows_chirho);
        let mut i: u8 = 0;
        while i < self.num_rows_chirho
            invariant
                i <= self.num_rows_chirho <= 64,
                result_chirho.num_rows_chirho == self.num_cols_chirho && result_chirho.num_cols_chirho == self.num_rows_chirho,
                forall|a: int, b: int| #[trigger] result_chirho.cell(a, b) == (0 <= b < i && self.cell(b, a)),
            decreases self.num_rows_chirho - i,
        {
            let mut j: u8 = 0;
            while j < 64
                invariant
                    j <= 64,
                    i < 64,
                    result_chirho.num_rows_chirho == self.num_cols_chirho && result_chirho.num_cols_chirho == self.num_rows_chirho,
                    forall|a: int, b: int| #[trigger] result_chirho.cell(a, b) == ((0 <= b < i && self.cell(b, a)) || (b == i && a < j && self.cell(b, a))),
                decreases 64 - j,
            {
                if self.rows_chirho[i as usize].get_bit_chirho(j as u32) {
                    result_chirho.set_chirho(j, i);
                }
                j = j + 1;
            }
            i = i + 1;
        }
        result_chirho
    }

    /// Same shape and same rows.
    fn same_as_chirho(&self, other_chirho: &Self) -> (r: bool)
        ensures
            r == self.same(*other_chirho),
    {
        if self.num_rows_chirho != other_chirho.num_rows_chirho || self.num_cols_chirho != other_chirho.num_cols_chirho {
            return false;
        }
        let mut i: usize = 0;
        while i < 64
            invariant
                i <= 64,
                forall|k: int| 0 <= k < i ==> #[trigger] self.rows_chirho[k] == other_chirho.rows_chirho[k],
            decreases 64 - i,
        {
            if self.rows_chirho[i].0 != other_chirho.rows_chirho[i].0 {
                return false;
            }
            i = i + 1;
        }
        assert(self.rows_chirho@ =~= other_chirho.rows_chirho@);
        true
    }

    fn copy_chirho(&self) -> (r: Self)
        ensures
            r.same(*self),
            forall|i: int, j: int| #[trigger] r.cell(i, j) == self.cell(i, j),
    {
        proof {
            use_type_invariant(self);
        }
        Self { rows_chirho: self.rows_chirho, num_rows_chirho: self.num_rows_chirho, num_cols_chirho: self.num_cols_chirho }
    }

    /// Transitive closure: repeat `m := m OR m*m` until nothing changes.  The
    /// result is the least relation containing this one and closed under
    /// composition through the rows in use.
    pub fn transitive_closure_chirho(&self) -> (r: Self)
        ensures
            r.nrows() == self.nrows() && r.ncols() == self.ncols(),
            forall|i: int, j: int| #[trigger] self.cell(i, j) ==> r.cell(i, j),
            forall|i: int, k: int, j: int|
                0 <= i < self.nrows() && #[trigger] r.cell(i, k) && #[trigger] r.cell(k, j) ==> r.cell(i, j),
            forall|s: spec_fn(int, int) -> bool|
                #[trigger] closed_superset(s, *self, self.nrows() as int) ==> forall|i: int, j: int| #[trigger] r.cell(i, j) ==> s(i, j),
    {
        proof {
            use_type_invariant(self);
        }
        let mut current_chirho = self.copy_chirho();
        let mut prev_chirho = Self::new_chirho(self.num_rows_chirho, self.num_cols_chirho);
        proof {
            lemma_total_bits_bound(current_chirho.rows_chirho@, 64);
            if current_chirho.same(prev_chirho) {
                assert forall|i: int, k: int| !#[trigger] current_chirho.cell(i, k) by {
                    if 0 <= i < 64 {
                        assert(current_chirho.rows_chirho@[i] == prev_chirho.rows_chirho@[i]);
                        assert(!prev_chirho.cell(i, k));
                    }
                }
            }
        }
        while !current_chirho.same_as_chirho(&prev_chirho)
            invariant
                current_chirho.num_rows_chirho == self.num_rows_chirho && current_chirho.num_cols_chirho == self.num_cols_chirho,
                prev_chirho.num_rows_chirho == self.num_rows_chirho && prev_chirho.num_cols_chirho == self.num_cols_chirho,
                self.num_rows_chirho <= 64,
                forall|i: int, j: int| #[trigger] self.cell(i, j) ==> current_chirho.cell(i, j),
                forall|i: int, j: int| #[trigger] prev_chirho.cell(i, j) ==> current_chirho.cell(i, j),
                forall|s: spec_fn(int, int) -> bool|
                    #[trigger] closed_superset(s, *self, self.nrows() as int) ==> forall|i: int, j: int| #[trigger] current_chirho.cell(i, j) ==> s(i, j),
                current_chirho.same(prev_chirho) ==> forall|i: int, k: int, j: int|
                    0 <= i < self.nrows() && #[trigger] current_chirho.cell(i, k) && #[trigger] current_chirho.cell(k, j) ==> current_chirho.cell(i, j),
            decreases 64 * 64 - total_bits(current_chirho.rows_chirho@, 64) + if current_chirho.same(prev_chirho) { 0int } else { 1int },
        {
            proof {
                lemma_total_bits_bound(current_chirho.rows_chirho@, 64);
            }
            let ghost old_current = current_chirho;
            prev_chirho = current_chirho.copy_chirho();
            let squared_chirho = current_chirho.matmul_chirho(&current_chirho);
            current_chirho = current_chirho.or_chirho(&squared_chirho);
            proof {
                lemma_total_bits_bound(current_chirho.rows_chirho@, 64);
                assert forall|i: int, j: int| 0 <= i < 64 && #[trigger] bit64(old_current.rows_chirho@[i].0, j) implies bit64(current_chirho.rows_chirho@[i].0, j) by {
                    assert(old_current.cell(i, j));
                    assert(current_chirho.cell(i, j));
                }
                lemma_total_bits_mono(old_current.rows_chirho@, current_chirho.rows_chirho@, 64);
                if !current_chirho.same(prev_chirho) {
                    assert(!(current_chirho.rows_chirho@ =~= prev_chirho.rows_chirho@));
                    let i = choose|i: int| 0 <= i < 64 && current_chirho.rows_chirho@[i] != prev_chirho.rows_chirho@[i];
                    assert(old_current.rows_chirho@[i] != current_chirho.rows_chirho@[i]);
                }
                assert forall|s: spec_fn(int, int) -> bool|
                    #[trigger] closed_superset(s, *self, self.nrows() as int) implies forall|i: int, j: int| #[trigger] current_chirho.cell(i, j) ==> s(i, j) by {
                    assert forall|i: int, j: int| #[trigger] current_chirho.cell(i, j) implies s(i, j) by {
                        if !old_current.cell(i, j) {
                            let k = choose|k: int| 0 <= k < 64 && #[trigger] old_current.cell(i, k) && old_current.cell(k, j);
                            assert(s(i, k) && s(k, j));
                        }
                    }
                }
                if current_chirho.same(prev_chirho) {
                    assert forall|i: int, k: int, j: int|
                        0 <= i < self.nrows() && #[trigger] current_chirho.cell(i, k) && #[trigger] current_chirho.cell(k, j) implies current_chirho.cell(i, j) by {
                        assert(prev_chirho.cell(i, k) == current_chirho.cell(i, k));
                        assert(prev_chirho.cell(k, j) == current_chirho.cell(k, j));
                        assert(0 <= k < 64);
                        assert(squared_chirho.cell(i, j));
                    }
                }
            }
        }
        current_chirho
    }

    /// Number of set cells.
    pub fn popcount_chirho(&self) -> (r: u32)
        ensures
            r == total_bits(self.row_words(), 64),
    {
        let mut total: u32 = 0;
        let mut i: usize = 0;
        while i < 64
            invariant
                i <= 64,
                total == total_bits(self.rows_chirho@, i as nat),
            decreases 64 - i,
        {
            proof {
                lemma_total_bits_bound(self.rows_chirho@, (i + 1) as nat);
            }
            total = total + self.rows_chirho[i].popcount_chirho();
            i = i + 1;
        }
        total
    }

    /// Some cell is set.
    pub fn any_chirho(&self) -> (r: bool)
        ensures
            r == exists|i: int, j: int| #[trigger] self.cell(i, j),
    {
        let mut i: usize = 0;
        while i < 64
            invariant
                i <= 64,
                forall|k: int| 0 <= k < i ==> #[trigger] self.rows_chirho[k].0 == 0,
            decreases 64 - i,
        {
            if !self.rows_chirho[i].is_zero_chirho() {
                proof {
                    lemma_zero_iff_no_bits(self.rows_chirho[i as int].0);
                    let j = choose|j: int| bit64(self.rows_chirho[i as int].0, j);
                    assert(self.cell(i as int, j));
                }
                return true;
            }
            i = i + 1;
        }
        proof {
            lemma_zero_iff_no_bits(0);
        }
        false
    }

    /// No cell is set.
    pub fn is_zero_chirho(&self) -> (r: bool)
        ensures
            r == forall|i: int, j: int| !#[trigger] self.cell(i, j),
    {
        !self.any_chirho()
    }

    /// The word of row `i`.
    pub fn row_chirho(&self, i_chirho: u8) -> (r: Word64Chirho)
        requires
            i_chirho < 64,
        ensures
            forall|j: int| #[trigger] bit64(r.0, j) == self.cell(i_chirho as int, j),
    {
        self.rows_chirho[i_chirho as usize]
    }

    /// Column `j` packed into a word (bit `i` is cell `(i, j)`).
    pub fn col_chirho(&self, j_chirho: u8) -> (r: Word64Chirho)
        requires
            j_chirho < 64,
        ensures
            forall|i: int| #[trigger] bit64(r.0, i) == self.cell(i, j_chirho as int),
    {
        let mut result_chirho: u64 = 0;
        let mut i: usize = 0;
        proof {
            lemma_zero_iff_no_bits(0);
        }
        while i < 64
            invariant
                i <= 64,
                j_chirho < 64,
                forall|a: int| #[trigger] bit64(result_chirho, a) == (0 <= a < i && self.cell(a, j_chirho as int)),
            decreases 64 - i,
        {
            let ghost prev = result_chirho;
            if self.rows_chirho[i].get_bit_chirho(j_chirho as u32) {
                result_chirho = result_chirho | (1u64 << i);
            }
            proof {
                assert forall|a: int| #[trigger] bit64(result_chirho, a) == (0 <= a < i + 1 && self.cell(a, j_chirho as int)) by {
                    lemma_or_bits(prev, 1u64 << i, a);
                    lemma_shl_bits(i as u64, a);
                }
            }
            i = i + 1;
        }
        Word64Chirho::new_chirho(result_chirho)
    }

    /// (rows, columns) the matrix was made with.
    pub fn shape_chirho(&self) -> (r: (u8, u8))
        ensures
            r.0 == self.nrows() && r.1 == self.ncols(),
    {
        (self.num_rows_chirho, self.num_cols_chirho)
    }
}

impl Clone for BitMatrix64Chirho {
    fn clone(&self) -> (r: Self)
        ensures
            r.same(*self),
    {
        self.copy_chirho()
    }
}

impl Default for BitMatrix64Chirho {
    fn default() -> (r: Self)
        ensures
            r.nrows() == 64 && r.ncols() == 64,
            forall|i: int, j: int| !#[trigger] r.cell(i, j),
    {
        Self::new_chirho(64, 64)
    }
}


/// Dense bit matrix of any shape, rows packed into consecutive words.
#[derive(PartialEq, Eq)]
pub struct BitMatrixPackedChirho {
    words_chirho: Vec<Word64Chirho>,
    words_per_row_chirho: usize,
    num_rows_chirho: usize,
    num_cols_chirho: usize,
}

proof fn lemma_flat_index(row: int, wpr: int, nrows: int, w: int)
    requires
        0 <= row < nrows,
        0 <= w < wpr,
    ensures
        0 <= row * wpr + w < nrows * wpr,
        row * wpr + w >= 0,
{
    assert(0 <= row * wpr + w < nrows * wpr) by (nonlinear_arith)
        requires
            0 <= row < nrows,
            0 <= w < wpr,
    ;
}

impl BitMatrixPackedChirho {
    /// The words hold exactly `rows * words_per_row` words.
    pub closed spec fn wf(self) -> bool {
        &&& self.words_per_row_chirho == (self.num_cols_chirho + 63) / 64
        &&& self.words_chirho.len() == self.num_rows_chirho * self.words_per_row_chirho
    }

    /// Number of rows.
    pub closed spec fn nrows(self) -> nat {
        self.num_rows_chirho as nat
    }

    /// Number of columns.
    pub closed spec fn ncols(self) -> nat {
        self.num_cols_chirho as nat
    }

    /// Words per row (the columns rounded up to whole words).
    pub closed spec fn wpr(self) -> nat {
        self.words_per_row_chirho as nat
    }

    /// Total number of words.
    pub closed spec fn nwords(self) -> nat {
        self.words_chirho.len() as nat
    }

    /// Cell `(i, j)` is set; `j` ranges over the whole words of a row.
    pub closed spec fn cell(self, i: int, j: int) -> bool {
        0 <= i < self.num_rows_chirho && 0 <= j < 64 * self.words_per_row_chirho && bit64(
            self.words_chirho[i * self.words_per_row_chirho + j / 64].0,
            j % 64,
        )
    }

    /// The packed words.
    pub closed spec fn words(self) -> Seq<Word64Chirho> {
        self.words_chirho@
    }

    /// An all-zero `rows x cols` matrix.
    pub fn new_chirho(rows_chirho: usize, cols_chirho: usize) -> (r: Self)
        requires
            cols_chirho + 63 <= usize::MAX,
            rows_chirho * ((cols_chirho + 63) / 64) <= usize::MAX,
        ensures
            r.wf(),
            r.nrows() == rows_chirho && r.ncols() == cols_chirho,
            r.wpr() == (cols_chirho + 63) / 64,
            forall|i: int, j: int| !#[trigger] r.cell(i, j),
    {
        let words_per_row_chirho = (cols_chirho + 63) / 64;
        let n = rows_chirho * words_per_row_chirho;
        let mut words: Vec<Word64Chirho> = Vec::new();
        let mut k: usize = 0;
        while k < n
            invariant
                k <= n,
                words.len() == k,
                forall|t: int| 0 <= t < k ==> #[trigger] words[t].0 == 0,
            decreases n - k,
        {
            words.push(Word64Chirho(0));
            k = k + 1;
        }
        let r = Self {
            words_chirho: words,
            words_per_row_chirho,
            num_rows_chirho: rows_chirho,
            num_cols_chirho: cols_chirho,
        };
        proof {
            lemma_zero_iff_no_bits(0);
            assert forall|i: int, j: int| !#[trigger] r.cell(i, j) by {
                if 0 <= i < rows_chirho && 0 <= j < 64 * words_per_row_chirho {
                    lemma_flat_index(i, words_per_row_chirho as int, rows_chirho as int, j / 64);
                }
            }
        }
        r
    }

    fn word_idx_chirho(&self, row_chirho: usize, col_chirho: usize) -> (r: (usize, u32))
        requires
            self.wf(),
            row_chirho < self.nrows(),
            col_chirho < 64 * self.wpr(),
        ensures
            r.0 == row_chirho * self.wpr() + col_chirho / 64,
            r.0 < self.nwords(),
            r.1 == col_chirho % 64,
    {
        proof {
            lemma_flat_index(row_chirho as int, self.words_per_row_chirho as int, self.num_rows_chirho as int, (col_chirho / 64) as int);
        }
        let word_offset_chirho = col_chirho / 64;
        let bit_offset_chirho = (col_chirho % 64) as u32;
        let flat_idx_chirho = row_chirho * self.words_per_row_chirho + word_offset_chirho;
        (flat_idx_chirho, bit_offset_chirho)
    }

    /// Cell `(row, col)`.
    pub fn get_chirho(&self, row_chirho: usize, col_chirho: usize) -> (r: bool)
        requires
            self.wf(),
            row_chirho < self.nrows(),
            col_chirho < 64 * self.wpr(),
        ensures
            r == self.cell(row_chirho as int, col_chirho as int),
    {
        let (flat_chirho, bit_chirho) = self.word_idx_chirho(row_chirho, col_chirho);
        self.words_chirho[flat_chirho].get_bit_chirho(bit_chirho)
    }

    /// Set cell `(row, col)`.
    pub fn set_chirho(&mut self, row_chirho: usize, col_chirho: usize)
        requires
            old(self).wf(),
            row_chirho < old(self).nrows(),
            col_chirho < 64 * old(self).wpr(),
        ensures
            final(self).wf(),
            final(self).nrows() == old(self).nrows() && final(self).ncols() == old(self).ncols() && final(self).wpr() == old(self).wpr(),
            forall|i: int, j: int| #[trigger] final(self).cell(i, j) == (old(self).cell(i, j) || (i == row_chirho && j == col_chirho)),
    {
        let ghost prev = *self;
        let (flat_chirho, bit_chirho) = self.word_idx_chirho(row_chirho, col_chirho);
        let w = self.words_chirho[flat_chirho].set_bit_chirho(bit_chirho);
        self.words_chirho.set(flat_chirho, w);
        proof {
            assert forall|i: int, j: int| #[trigger] self.cell(i, j) == (prev.cell(i, j) || (i == row_chirho && j == col_chirho)) by {
                if 0 <= i < self.num_rows_chirho && 0 <= j < 64 * self.words_per_row_chirho {
                    let wpr = self.words_per_row_chirho as int;
                    lemma_flat_index(i, wpr, self.num_rows_chirho as int, j / 64);
                    if i * wpr + j / 64 == flat_chirho {
                        assert(i == row_chirho && j / 64 == col_chirho / 64) by (nonlinear_arith)
                            requires
                                i * wpr + j / 64 == row_chirho * wpr + col_chirho / 64,
                                0 <= j / 64 < wpr,
                                0 <= col_chirho / 64 < wpr,
                                0 <= i,
                                0 <= row_chirho,
                        ;
                    } else {
                        if i == row_chirho && j == col_chirho {
                            assert(false);
                        }
                    }
                }
            }
        }
    }

    /// Clear cell `(row, col)`.
    pub fn clear_chirho(&mut self, row_chirho: usize, col_chirho: usize)
        requires
            old(self).wf(),
            row_chirho < old(self).nrows(),
            col_chirho < 64 * old(self).wpr(),
        ensures
            final(self).wf(),
            final(self).nrows() == old(self).nrows() && final(self).ncols() == old(self).ncols() && final(self).wpr() == old(self).wpr(),
            forall|i: int, j: int| #[trigger] final(self).cell(i, j) == (old(self).cell(i, j) && !(i == row_chirho && j == col_chirho)),
    {
        let ghost prev = *self;
        let (flat_chirho, bit_chirho) = self.word_idx_chirho(row_chirho, col_chirho);
        let w = self.words_chirho[flat_chirho].clear_bit_chirho(bit_chirho);
        self.words_chirho.set(flat_chirho, w);
        proof {
            assert forall|i: int, j: int| #[trigger] self.cell(i, j) == (prev.cell(i, j) && !(i == row_chirho && j == col_chirho)) by {
                if 0 <= i < self.num_rows_chirho && 0 <= j < 64 * self.words_per_row_chirho {
                    let wpr = self.words_per_row_chirho as int;
                    lemma_flat_index(i, wpr, self.num_rows_chirho as int, j / 64);
                    if i * wpr + j / 64 == flat_chirho {
                        assert(i == row_chirho && j / 64 == col_chirho / 64) by (nonlinear_arith)
                            requires
                                i * wpr + j / 64 == row_chirho * wpr + col_chirho / 64,
                                0 <= j / 64 < wpr,
                                0 <= col_chirho / 64 < wpr,
                                0 <= i,
                                0 <= row_chirho,
                        ;
                    }
                }
            }
        }
    }

    /// Word-wise AND of two matrices with the same number of words.
    pub fn and_chirho(&self, other_chirho: &Self) -> (r: Self)
        requires
            self.wf(),
            self.nwords() == other_chirho.nwords(),
        ensures
            r.wf(),
            r.nrows() == self.nrows() && r.ncols() == self.ncols() && r.wpr() == self.wpr(),
            r.nwords() == self.nwords(),
            forall|k: int| 0 <= k < r.nwords() ==> #[trigger] r.words()[k].0 == self.words()[k].0 & other_chirho.words()[k].0,
    {
        let mut words: Vec<Word64Chirho> = Vec::new();
        let mut k: usize = 0;
        while k < self.words_chirho.len()
            invariant
                k <= self.words_chirho.len() == other_chirho.words_chirho.len(),
                words.len() == k,
                forall|t: int| 0 <= t < k ==> #[trigger] words[t].0 == self.words_chirho[t].0 & other_chirho.words_chirho[t].0,
            decreases self.words_chirho.len() - k,
        {
            words.push(self.words_chirho[k] & other_chirho.words_chirho[k]);
            k = k + 1;
        }
        Self {
            words_chirho: words,
            words_per_row_chirho: self.words_per_row_chirho,
            num_rows_chirho: self.num_rows_chirho,
            num_cols_chirho: self.num_cols_chirho,
        }
    }

    /// Word-wise OR of two matrices with the same number of words.
    pub fn or_chirho(&self, other_chirho: &Self) -> (r: Self)
        requires
            self.wf(),
            self.nwords() == other_chirho.nwords(),
        ensures
            r.wf(),
            r.nrows() == self.nrows() && r.ncols() == self.ncols() && r.wpr() == self.wpr(),
            r.nwords() == self.nwords(),
            forall|k: int| 0 <= k < r.nwords() ==> #[trigger] r.words()[k].0 == self.words()[k].0 | other_chirho.words()[k].0,
    {
        let mut words: Vec<Word64Chirho> = Vec::new();
        let mut k: usize = 0;
        while k < self.words_chirho.len()
            invariant
                k <= self.words_chirho.len() == other_chirho.words_chirho.len(),
                words.len() == k,
                forall|t: int| 0 <= t < k ==> #[trigger] words[t].0 == self.words_chirho[t].0 | other_chirho.words_chirho[t].0,
            decreases self.words_chirho.len() - k,
        {
            words.push(self.words_chirho[k] | other_chirho.words_chirho[k]);
            k = k + 1;
        }
        Self {
            words_chirho: words,
            words_per_row_chirho: self.words_per_row_chirho,
            num_rows_chirho: self.num_rows_chirho,
            num_cols_chirho: self.num_cols_chirho,
        }
    }

    /// Number of set bits over all words.
    pub fn popcount_chirho(&self) -> (r: usize)
        requires
            64 * self.nwords() <= usize::MAX,
        ensures
            r == total_bits(self.words(), self.nwords()),
    {
        let mut total: usize = 0;
        let mut k: usize = 0;
        while k < self.words_chirho.len()
            invariant
                k <= self.words_chirho.len(),
                64 * self.words_chirho.len() <= usize::MAX,
                total == total_bits(self.words_chirho@, k as nat),
            decreases self.words_chirho.len() - k,
        {
            proof {
                lemma_total_bits_bound(self.words_chirho@, (k + 1) as nat);
            }
            total = total + self.words_chirho[k].popcount_chirho() as usize;
            k = k + 1;
        }
        total
    }

    /// (rows, columns).
    pub fn shape_chirho(&self) -> (r: (usize, usize))
        ensures
            r.0 == self.nrows() && r.1 == self.ncols(),
    {
        (self.num_rows_chirho, self.num_cols_chirho)
    }
}

impl Default for BitMatrixPackedChirho {
    fn default() -> (r: Self)
        ensures
            r.wf(),
            r.nrows() == 64 && r.ncols() == 64,
            forall|i: int, j: int| !#[trigger] r.cell(i, j),
    {
        Self::new_chirho(64, 64)
    }
}


/// `j` is reached from `i` in `len` steps, each along a set cell of `m`.
pub open spec fn reaches(m: BitMatrix64Chirho, i: int, j: int, len: nat) -> bool
    decreases len,
{
    if len <= 1 {
        len == 1 && m.cell(i, j)
    } else {
        exists|k: int| #![trigger m.cell(i, k)] 0 <= k < 64 && m.cell(i, k) && reaches(m, k, j, (len - 1) as nat)
    }
}

/// Two walks joined end to end are a walk.
pub proof fn lemma_reaches_concat(m: BitMatrix64Chirho, i: int, k: int, j: int, l1: nat, l2: nat)
    requires
        reaches(m, i, k, l1),
        reaches(m, k, j, l2),
    ensures
        reaches(m, i, j, l1 + l2),
    decreases l1,
{
    if l1 == 1 {
        assert(l2 >= 1);
        assert(m.cell(i, k));
        assert(0 <= k < 64) by {
            reveal_with_fuel(reaches, 2);
            if l2 == 1 {
            } else {
                let t = choose|t: int| 0 <= t < 64 && m.cell(k, t) && reaches(m, t, j, (l2 - 1) as nat);
            }
        }
        assert(reaches(m, k, j, ((l1 + l2) - 1) as nat));
    } else {
        assert(l1 > 1);
        reveal_with_fuel(reaches, 2);
        assert(exists|t: int| #![trigger m.cell(i, t)] 0 <= t < 64 && m.cell(i, t) && reaches(m, t, k, (l1 - 1) as nat));
        let t = choose|t: int| 0 <= t < 64 && m.cell(i, t) && reaches(m, t, k, (l1 - 1) as nat);
        lemma_reaches_concat(m, t, k, j, (l1 - 1) as nat, l2);
        assert(reaches(m, t, j, ((l1 + l2) - 1) as nat));
    }
}

proof fn lemma_reaches_in(m: BitMatrix64Chirho, r: BitMatrix64Chirho, i: int, j: int, len: nat)
    requires
        forall|a: int, b: int| #[trigger] m.cell(a, b) ==> r.cell(a, b) && a < m.nrows(),
        forall|a: int, k: int, b: int| 0 <= a < m.nrows() && #[trigger] r.cell(a, k) && #[trigger] r.cell(k, b) ==> r.cell(a, b),
        reaches(m, i, j, len),
    ensures
        r.cell(i, j),
        0 <= i < m.nrows(),
    decreases len,
{
    if len > 1 {
        reveal_with_fuel(reaches, 2);
        assert(exists|k: int| #![trigger m.cell(i, k)] 0 <= k < 64 && m.cell(i, k) && reaches(m, k, j, (len - 1) as nat));
        let k = choose|k: int| 0 <= k < 64 && m.cell(i, k) && reaches(m, k, j, (len - 1) as nat);
        lemma_reaches_in(m, r, k, j, (len - 1) as nat);
        assert(r.cell(i, k));
        assert(0 <= i);
    } else {
        assert(0 <= i);
    }
}

/// The transitive closure of a matrix whose set cells lie in its rows holds
/// exactly the pairs joined by a walk of one or more steps along set cells.
pub proof fn lemma_closure_paths(m: BitMatrix64Chirho, r: BitMatrix64Chirho)
    requires
        forall|i: int, j: int| #[trigger] m.cell(i, j) ==> r.cell(i, j),
        forall|i: int, k: int, j: int| 0 <= i < m.nrows() && #[trigger] r.cell(i, k) && #[trigger] r.cell(k, j) ==> r.cell(i, j),
        forall|s: spec_fn(int, int) -> bool|
            #[trigger] closed_superset(s, m, m.nrows() as int) ==> forall|i: int, j: int| #[trigger] r.cell(i, j) ==> s(i, j),
        forall|i: int, j: int| #[trigger] m.cell(i, j) ==> i < m.nrows(),
    ensures
        forall|i: int, j: int| 0 <= i < m.nrows() ==> (#[trigger] r.cell(i, j) <==> exists|len: nat| len >= 1 && #[trigger] reaches(m, i, j, len)),
{
    let s = |a: int, b: int| exists|len: nat| len >= 1 && #[trigger] reaches(m, a, b, len);
    assert(closed_superset(s, m, m.nrows() as int)) by {
        assert forall|a: int, b: int| #[trigger] m.cell(a, b) implies s(a, b) by {
            assert(reaches(m, a, b, 1));
        }
        assert forall|a: int, k: int, b: int|
            0 <= a < m.nrows() && 0 <= k < 64 && 0 <= b < 64 && #[trigger] s(a, k) && #[trigger] s(k, b) implies s(a, b) by {
            let l1 = choose|len: nat| len >= 1 && #[trigger] reaches(m, a, k, len);
            let l2 = choose|len: nat| len >= 1 && #[trigger] reaches(m, k, b, len);
            lemma_reaches_concat(m, a, k, b, l1, l2);
        }
    }
    assert forall|i: int, j: int| 0 <= i < m.nrows() implies (#[trigger] r.cell(i, j) <==> exists|len: nat| len >= 1 && #[trigger] reaches(m, i, j, len)) by {
        if r.cell(i, j) {
            assert(s(i, j));
        }
        if exists|len: nat| len >= 1 && #[trigger] reaches(m, i, j, len) {
            let len = choose|len: nat| len >= 1 && #[trigger] reaches(m, i, j, len);
            lemma_reaches_in(m, r, i, j, len);
        }
    }
}
} // verus!
