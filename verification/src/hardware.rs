//! Fixed-width bit-vector registers (64, 256 and 512 bits), the search states
//! built from them, a content-addressable memory for relation facts and a
//! parallel unification unit.  Each register is a domain: bit `i` set means
//! value `i` is still possible.

use vstd::prelude::*;
use vstd::std_specs::bits::{u64_trailing_zeros, u64_leading_zeros, axiom_u64_trailing_zeros};
use crate::bits::{bit64, popcount64, lowest64, popcount_u64, lemma_zero_iff_no_bits, lemma_mask_test};

verus! {

/// 64-bit domain register.
#[derive(Debug, Clone, Copy, PartialEq, Eq, Structural, Default)]
pub struct BitVec64Chirho(pub u64);

/// `x` has exactly one bit set, in the form the hardware tests it.
pub open spec fn is_single64(x: u64) -> bool {
    x != 0 && x & ((x - 1) as u64) == 0
}

impl BitVec64Chirho {
    /// The empty domain.
    #[allow(non_snake_case)]
    pub fn ZERO_CHIRHO() -> (r: Self)
        ensures
            r.0 == 0,
    {
        BitVec64Chirho(0)
    }

    /// The full domain (all 64 values).
    #[allow(non_snake_case)]
    pub fn ONES_CHIRHO() -> (r: Self)
        ensures
            r.0 == u64::MAX,
    {
        BitVec64Chirho(u64::MAX)
    }

    /// AND: intersection of two domains.
    pub fn and_chirho(self, other_chirho: Self) -> (r: Self)
        ensures
            r.0 == self.0 & other_chirho.0,
    {
        BitVec64Chirho(self.0 & other_chirho.0)
    }

    /// OR: union of two domains.
    pub fn or_chirho(self, other_chirho: Self) -> (r: Self)
        ensures
            r.0 == self.0 | other_chirho.0,
    {
        BitVec64Chirho(self.0 | other_chirho.0)
    }

    /// NOT: complement within the 64 values.
    pub fn not_chirho(self) -> (r: Self)
        ensures
            r.0 == !self.0,
    {
        BitVec64Chirho(!self.0)
    }

    /// XOR: symmetric difference.
    pub fn xor_chirho(self, other_chirho: Self) -> (r: Self)
        ensures
            r.0 == self.0 ^ other_chirho.0,
    {
        BitVec64Chirho(self.0 ^ other_chirho.0)
    }

    /// Number of values in the domain.
    pub fn popcount_chirho(self) -> (r: u32)
        ensures
            r == popcount64(self.0),
            r <= 64,
    {
        popcount_u64(self.0)
    }

    /// Number of leading zero bits.
    pub fn clz_chirho(self) -> (r: u32)
        ensures
            r == u64_leading_zeros(self.0),
    {
        self.0.leading_zeros()
    }

    /// Number of trailing zero bits: the smallest value (64 when empty).
    pub fn ctz_chirho(self) -> (r: u32)
        ensures
            r == u64_trailing_zeros(self.0),
    {
        self.0.trailing_zeros()
    }

    /// The domain is empty (failure).
    pub fn is_zero_chirho(self) -> (r: bool)
        ensures
            r == (self.0 == 0),
    {
        self.0 == 0
    }

    /// The domain holds exactly one value.
    pub fn is_singleton_chirho(self) -> (r: bool)
        ensures
            r == is_single64(self.0),
    {
        self.0 != 0 && (self.0 & (self.0 - 1)) == 0
    }

    /// Add value `idx_chirho` to the domain.
    pub fn set_bit_chirho(self, idx_chirho: u32) -> (r: Self)
        requires
            idx_chirho < 64,
        ensures
            r.0 == self.0 | (1u64 << idx_chirho),
    {
        BitVec64Chirho(self.0 | (1u64 << idx_chirho))
    }

    /// Remove value `idx_chirho` from the domain.
    pub fn clear_bit_chirho(self, idx_chirho: u32) -> (r: Self)
        requires
            idx_chirho < 64,
        ensures
            r.0 == self.0 & !(1u64 << idx_chirho),
    {
        BitVec64Chirho(self.0 & !(1u64 << idx_chirho))
    }

    /// Is value `idx_chirho` in the domain?
    pub fn test_bit_chirho(self, idx_chirho: u32) -> (r: bool)
        requires
            idx_chirho < 64,
        ensures
            r == bit64(self.0, idx_chirho as int),
    {
        proof {
            lemma_mask_test(self.0, idx_chirho as u64);
        }
        (self.0 & (1u64 << idx_chirho)) != 0
    }

    /// Isolate the lowest value of the domain.
    pub fn lowest_bit_chirho(self) -> (r: Self)
        ensures
            r.0 == lowest64(self.0),
    {
        if self.0 == 0 {
            BitVec64Chirho(0)
        } else {
            proof {
                axiom_u64_trailing_zeros(self.0);
            }
            BitVec64Chirho(1u64 << self.0.trailing_zeros())
        }
    }

    /// Remove the lowest value of a non-empty domain.
    pub fn clear_lowest_chirho(self) -> (r: Self)
        requires
            self.0 != 0,
        ensures
            r.0 == self.0 & ((self.0 - 1) as u64),
    {
        BitVec64Chirho(self.0 & (self.0 - 1))
    }
}

/// Bit `i` of a 256-bit register held as four words.
pub open spec fn bit256(w: [u64; 4], i: int) -> bool {
    0 <= i < 256 && bit64(w[i / 64], i % 64)
}

/// Lowest set bit of a 256-bit register, isolated.
pub open spec fn lowest256(w: [u64; 4]) -> [u64; 4] {
    if w[0] != 0 {
        [lowest64(w[0]), 0, 0, 0]
    } else if w[1] != 0 {
        [0, lowest64(w[1]), 0, 0]
    } else if w[2] != 0 {
        [0, 0, lowest64(w[2]), 0]
    } else if w[3] != 0 {
        [0, 0, 0, lowest64(w[3])]
    } else {
        [0, 0, 0, 0]
    }
}

/// A 256-bit register with its lowest set bit removed.
pub open spec fn clear_lowest256(w: [u64; 4]) -> [u64; 4] {
    if w[0] != 0 {
        [w[0] & ((w[0] - 1) as u64), w[1], w[2], w[3]]
    } else if w[1] != 0 {
        [0, w[1] & ((w[1] - 1) as u64), w[2], w[3]]
    } else if w[2] != 0 {
        [0, 0, w[2] & ((w[2] - 1) as u64), w[3]]
    } else if w[3] != 0 {
        [0, 0, 0, w[3] & ((w[3] - 1) as u64)]
    } else {
        w
    }
}

pub open spec fn popcount256(w: [u64; 4]) -> nat {
    popcount64(w[0]) + popcount64(w[1]) + popcount64(w[2]) + popcount64(w[3])
}

pub open spec fn is_zero256(w: [u64; 4]) -> bool {
    w[0] == 0 && w[1] == 0 && w[2] == 0 && w[3] == 0
}

/// 256-bit domain register (four 64-bit words).
#[derive(Debug, Clone, Copy, PartialEq, Eq, Default)]
pub struct BitVec256Chirho(pub [u64; 4]);

impl BitVec256Chirho {
    /// The empty domain.
    #[allow(non_snake_case)]
    pub fn ZERO_CHIRHO() -> (r: Self)
        ensures
            is_zero256(r.0),
    {
        BitVec256Chirho([0, 0, 0, 0])
    }

    /// The full domain (all 256 values).
    #[allow(non_snake_case)]
    pub fn ONES_CHIRHO() -> (r: Self)
        ensures
            forall|k: int| 0 <= k < 4 ==> #[trigger] r.0[k] == u64::MAX,
    {
        BitVec256Chirho([u64::MAX, u64::MAX, u64::MAX, u64::MAX])
    }

    /// Word-wise AND.
    pub fn and_chirho(self, other_chirho: Self) -> (r: Self)
        ensures
            forall|k: int| 0 <= k < 4 ==> #[trigger] r.0[k] == self.0[k] & other_chirho.0[k],
    {
        BitVec256Chirho(
            [
                self.0[0] & other_chirho.0[0],
                self.0[1] & other_chirho.0[1],
                self.0[2] & other_chirho.0[2],
                self.0[3] & other_chirho.0[3],
            ],
        )
    }

    /// Word-wise OR.
    pub fn or_chirho(self, other_chirho: Self) -> (r: Self)
        ensures
            forall|k: int| 0 <= k < 4 ==> #[trigger] r.0[k] == self.0[k] | other_chirho.0[k],
    {
        BitVec256Chirho(
            [
                self.0[0] | other_chirho.0[0],
                self.0[1] | other_chirho.0[1],
                self.0[2] | other_chirho.0[2],
                self.0[3] | other_chirho.0[3],
            ],
        )
    }

    /// Word-wise NOT.
    pub fn not_chirho(self) -> (r: Self)
        ensures
            forall|k: int| 0 <= k < 4 ==> #[trigger] r.0[k] == !self.0[k],
    {
        BitVec256Chirho([!self.0[0], !self.0[1], !self.0[2], !self.0[3]])
    }

    /// Word-wise XOR.
    pub fn xor_chirho(self, other_chirho: Self) -> (r: Self)
        ensures
            forall|k: int| 0 <= k < 4 ==> #[trigger] r.0[k] == self.0[k] ^ other_chirho.0[k],
    {
        BitVec256Chirho(
            [
                self.0[0] ^ other_chirho.0[0],
                self.0[1] ^ other_chirho.0[1],
                self.0[2] ^ other_chirho.0[2],
                self.0[3] ^ other_chirho.0[3],
            ],
        )
    }

    /// Number of values in the domain.
    pub fn popcount_chirho(self) -> (r: u32)
        ensures
            r == popcount256(self.0),
            r <= 256,
    {
        let a = popcount_u64(self.0[0]);
        let b = popcount_u64(self.0[1]);
        let c = popcount_u64(self.0[2]);
        let d = popcount_u64(self.0[3]);
        a + b + c + d
    }

    /// The domain is empty.
    pub fn is_zero_chirho(self) -> (r: bool)
        ensures
            r == is_zero256(self.0),
    {
        self.0[0] == 0 && self.0[1] == 0 && self.0[2] == 0 && self.0[3] == 0
    }

    /// The domain holds exactly one value.
    pub fn is_singleton_chirho(self) -> (r: bool)
        ensures
            r == (popcount256(self.0) == 1),
    {
        self.popcount_chirho() == 1
    }

    /// Smallest value of the domain, or 256 when it is empty.
    pub fn find_first_chirho(self) -> (r: u32)
        ensures
            r <= 256,
            (r == 256) == is_zero256(self.0),
            r < 256 ==> bit256(self.0, r as int),
            forall|j: int| 0 <= j < r ==> !bit256(self.0, j),
    {
        proof {
            lemma_zero_iff_no_bits(self.0[0]);
            lemma_zero_iff_no_bits(self.0[1]);
            lemma_zero_iff_no_bits(self.0[2]);
            lemma_zero_iff_no_bits(self.0[3]);
            axiom_u64_trailing_zeros(self.0[0]);
            axiom_u64_trailing_zeros(self.0[1]);
            axiom_u64_trailing_zeros(self.0[2]);
            axiom_u64_trailing_zeros(self.0[3]);
        }
        if self.0[0] != 0 {
            let t = self.0[0].trailing_zeros();
            assert(bit64(self.0[0], t as int));
            assert forall|j: int| 0 <= j < t implies !bit256(self.0, j) by {
                assert((self.0[0] >> (j as u64)) & 1u64 == 0u64);
            }
            t
        } else if self.0[1] != 0 {
            let t = self.0[1].trailing_zeros();
            assert(bit64(self.0[1], t as int));
            assert forall|j: int| 0 <= j < 64 + t implies !bit256(self.0, j) by {
                if j >= 64 {
                    assert((self.0[1] >> ((j - 64) as u64)) & 1u64 == 0u64);
                }
            }
            64 + t
        } else if self.0[2] != 0 {
            let t = self.0[2].trailing_zeros();
            assert(bit64(self.0[2], t as int));
            assert forall|j: int| 0 <= j < 128 + t implies !bit256(self.0, j) by {
                if j >= 128 {
                    assert((self.0[2] >> ((j - 128) as u64)) & 1u64 == 0u64);
                }
            }
            128 + t
        } else if self.0[3] != 0 {
            let t = self.0[3].trailing_zeros();
            assert(bit64(self.0[3], t as int));
            assert forall|j: int| 0 <= j < 192 + t implies !bit256(self.0, j) by {
                if j >= 192 {
                    assert((self.0[3] >> ((j - 192) as u64)) & 1u64 == 0u64);
                }
            }
            192 + t
        } else {
            256
        }
    }

    /// Add value `idx_chirho` (values of 256 and above are ignored).
    pub fn set_bit_chirho(self, idx_chirho: u32) -> (r: Self)
        ensures
            idx_chirho < 256 ==> r.0@ == self.0@.update(
                (idx_chirho / 64) as int,
                self.0[(idx_chirho / 64) as int] | (1u64 << (idx_chirho % 64)),
            ),
            idx_chirho >= 256 ==> r == self,
    {
        let word_chirho = (idx_chirho / 64) as usize;
        let bit_chirho = idx_chirho % 64;
        let mut result_chirho = self;
        if word_chirho < 4 {
            result_chirho.0[word_chirho] = result_chirho.0[word_chirho] | (1u64 << bit_chirho);
        }
        result_chirho
    }

    /// Remove value `idx_chirho` (values of 256 and above are ignored).
    pub fn clear_bit_chirho(self, idx_chirho: u32) -> (r: Self)
        ensures
            idx_chirho < 256 ==> r.0@ == self.0@.update(
                (idx_chirho / 64) as int,
                self.0[(idx_chirho / 64) as int] & !(1u64 << (idx_chirho % 64)),
            ),
            idx_chirho >= 256 ==> r == self,
    {
        let word_chirho = (idx_chirho / 64) as usize;
        let bit_chirho = idx_chirho % 64;
        let mut result_chirho = self;
        if word_chirho < 4 {
            result_chirho.0[word_chirho] = result_chirho.0[word_chirho] & !(1u64 << bit_chirho);
        }
        result_chirho
    }

    /// Is value `idx_chirho` in the domain?
    pub fn test_bit_chirho(self, idx_chirho: u32) -> (r: bool)
        ensures
            r == bit256(self.0, idx_chirho as int),
    {
        let word_chirho = (idx_chirho / 64) as usize;
        let bit_chirho = idx_chirho % 64;
        if word_chirho < 4 {
            proof {
                lemma_mask_test(self.0[word_chirho as int], bit_chirho as u64);
            }
            (self.0[word_chirho] & (1u64 << bit_chirho)) != 0
        } else {
            false
        }
    }

    /// Isolate the lowest value.
    pub fn lowest_bit_chirho(self) -> (r: Self)
        ensures
            r.0 == lowest256(self.0),
    {
        let w = self.0;
        if w[0] != 0 {
            BitVec256Chirho([BitVec64Chirho(w[0]).lowest_bit_chirho().0, 0, 0, 0])
        } else if w[1] != 0 {
            BitVec256Chirho([0, BitVec64Chirho(w[1]).lowest_bit_chirho().0, 0, 0])
        } else if w[2] != 0 {
            BitVec256Chirho([0, 0, BitVec64Chirho(w[2]).lowest_bit_chirho().0, 0])
        } else if w[3] != 0 {
            BitVec256Chirho([0, 0, 0, BitVec64Chirho(w[3]).lowest_bit_chirho().0])
        } else {
            BitVec256Chirho([0, 0, 0, 0])
        }
    }

    /// Remove the lowest value.
    pub fn clear_lowest_chirho(self) -> (r: Self)
        ensures
            r.0 == clear_lowest256(self.0),
    {
        let w = self.0;
        if w[0] != 0 {
            BitVec256Chirho([w[0] & (w[0] - 1), w[1], w[2], w[3]])
        } else if w[1] != 0 {
            BitVec256Chirho([0, w[1] & (w[1] - 1), w[2], w[3]])
        } else if w[2] != 0 {
            BitVec256Chirho([0, 0, w[2] & (w[2] - 1), w[3]])
        } else if w[3] != 0 {
            BitVec256Chirho([0, 0, 0, w[3] & (w[3] - 1)])
        } else {
            self
        }
    }

    /// Zero-extend a 64-bit register.
    pub fn from_64_chirho(v_chirho: BitVec64Chirho) -> (r: Self)
        ensures
            r.0 == [v_chirho.0, 0u64, 0u64, 0u64],
    {
        BitVec256Chirho([v_chirho.0, 0, 0, 0])
    }

    /// Truncate to the low 64 bits.
    pub fn to_64_chirho(self) -> (r: BitVec64Chirho)
        ensures
            r.0 == self.0[0],
    {
        BitVec64Chirho(self.0[0])
    }
}


/// Bit `i` of a 512-bit register held as eight words.
pub open spec fn bit512(w: [u64; 8], i: int) -> bool {
    0 <= i < 512 && bit64(w[i / 64], i % 64)
}

/// Number of set bits in the first `n` words.
pub open spec fn popcount_words(w: Seq<u64>, n: nat) -> nat
    decreases n,
{
    if n == 0 {
        0
    } else {
        popcount_words(w, (n - 1) as nat) + popcount64(w[n - 1])
    }
}

pub proof fn lemma_popcount_words_bound(w: Seq<u64>, n: nat)
    ensures
        popcount_words(w, n) <= 64 * n,
    decreases n,
{
    if n > 0 {
        lemma_popcount_words_bound(w, (n - 1) as nat);
        crate::bits::lemma_popcount64_bound(w[n - 1]);
    }
}

/// 512-bit domain register (eight 64-bit words).
#[derive(Debug, Clone, Copy, PartialEq, Eq, Default)]
pub struct BitVec512Chirho(pub [u64; 8]);

impl BitVec512Chirho {
    /// The empty domain.
    #[allow(non_snake_case)]
    pub fn ZERO_CHIRHO() -> (r: Self)
        ensures
            forall|k: int| 0 <= k < 8 ==> #[trigger] r.0[k] == 0,
    {
        BitVec512Chirho([0, 0, 0, 0, 0, 0, 0, 0])
    }

    /// The full domain (all 512 values).
    #[allow(non_snake_case)]
    pub fn ONES_CHIRHO() -> (r: Self)
        ensures
            forall|k: int| 0 <= k < 8 ==> #[trigger] r.0[k] == u64::MAX,
    {
        BitVec512Chirho([u64::MAX, u64::MAX, u64::MAX, u64::MAX, u64::MAX, u64::MAX, u64::MAX, u64::MAX])
    }

    /// Word-wise AND.
    pub fn and_chirho(self, other_chirho: Self) -> (r: Self)
        ensures
            forall|k: int| 0 <= k < 8 ==> #[trigger] r.0[k] == self.0[k] & other_chirho.0[k],
    {
        let a = self.0;
        let b = other_chirho.0;
        BitVec512Chirho(
            [a[0] & b[0], a[1] & b[1], a[2] & b[2], a[3] & b[3], a[4] & b[4], a[5] & b[5], a[6] & b[6], a[7] & b[7]],
        )
    }

    /// Word-wise OR.
    pub fn or_chirho(self, other_chirho: Self) -> (r: Self)
        ensures
            forall|k: int| 0 <= k < 8 ==> #[trigger] r.0[k] == self.0[k] | other_chirho.0[k],
    {
        let a = self.0;
        let b = other_chirho.0;
        BitVec512Chirho(
            [a[0] | b[0], a[1] | b[1], a[2] | b[2], a[3] | b[3], a[4] | b[4], a[5] | b[5], a[6] | b[6], a[7] | b[7]],
        )
    }

    /// Word-wise NOT.
    pub fn not_chirho(self) -> (r: Self)
        ensures
            forall|k: int| 0 <= k < 8 ==> #[trigger] r.0[k] == !self.0[k],
    {
        let a = self.0;
        BitVec512Chirho([!a[0], !a[1], !a[2], !a[3], !a[4], !a[5], !a[6], !a[7]])
    }

    /// Number of values in the domain.
    pub fn popcount_chirho(self) -> (r: u32)
        ensures
            r == popcount_words(self.0@, 8),
            r <= 512,
    {
        let mut total: u32 = 0;
        let mut k: usize = 0;
        while k < 8
            invariant
                k <= 8,
                total == popcount_words(self.0@, k as nat),
            decreases 8 - k,
        {
            proof {
                lemma_popcount_words_bound(self.0@, k as nat);
            }
            let c = popcount_u64(self.0[k]);
            total = total + c;
            k = k + 1;
        }
        proof {
            lemma_popcount_words_bound(self.0@, 8);
        }
        total
    }

    /// The domain is empty.
    pub fn is_zero_chirho(self) -> (r: bool)
        ensures
            r == (forall|k: int| 0 <= k < 8 ==> #[trigger] self.0[k] == 0),
    {
        let mut k: usize = 0;
        while k < 8
            invariant
                k <= 8,
                forall|j: int| 0 <= j < k ==> #[trigger] self.0[j] == 0,
            decreases 8 - k,
        {
            if self.0[k] != 0 {
                return false;
            }
            k = k + 1;
        }
        true
    }

    /// The domain holds exactly one value.
    pub fn is_singleton_chirho(self) -> (r: bool)
        ensures
            r == (popcount_words(self.0@, 8) == 1),
    {
        self.popcount_chirho() == 1
    }

    /// Smallest value of the domain, or 512 when it is empty.
    pub fn find_first_chirho(self) -> (r: u32)
        ensures
            r <= 512,
            (r == 512) == (forall|k: int| 0 <= k < 8 ==> #[trigger] self.0[k] == 0),
            r < 512 ==> bit512(self.0, r as int),
            forall|j: int| 0 <= j < r ==> !bit512(self.0, j),
    {
        let mut k: usize = 0;
        while k < 8
            invariant
                k <= 8,
                forall|j: int| 0 <= j < k ==> #[trigger] self.0[j] == 0,
            decreases 8 - k,
        {
            let w = self.0[k];
            if w != 0 {
                proof {
                    axiom_u64_trailing_zeros(w);
                }
                let t = w.trailing_zeros();
                let r = (k as u32) * 64 + t;
                assert(bit64(w, t as int));
                assert(r / 64 == k && r % 64 == t);
                assert forall|j: int| 0 <= j < r implies !bit512(self.0, j) by {
                    if j < 64 * k {
                        assert(self.0[j / 64] == 0);
                        lemma_zero_iff_no_bits(0u64);
                    } else {
                        assert(j / 64 == k);
                        assert((w >> ((j % 64) as u64)) & 1u64 == 0u64);
                    }
                }
                return r;
            }
            k = k + 1;
        }
        proof {
            lemma_zero_iff_no_bits(0u64);
        }
        512
    }

    /// Add value `idx_chirho` (values of 512 and above are ignored).
    pub fn set_bit_chirho(self, idx_chirho: u32) -> (r: Self)
        ensures
            idx_chirho < 512 ==> r.0@ == self.0@.update(
                (idx_chirho / 64) as int,
                self.0[(idx_chirho / 64) as int] | (1u64 << (idx_chirho % 64)),
            ),
            idx_chirho >= 512 ==> r == self,
    {
        let word_chirho = (idx_chirho / 64) as usize;
        let bit_chirho = idx_chirho % 64;
        let mut result_chirho = self;
        if word_chirho < 8 {
            result_chirho.0[word_chirho] = result_chirho.0[word_chirho] | (1u64 << bit_chirho);
        }
        result_chirho
    }

    /// Is value `idx_chirho` in the domain?
    pub fn test_bit_chirho(self, idx_chirho: u32) -> (r: bool)
        ensures
            r == bit512(self.0, idx_chirho as int),
    {
        let word_chirho = (idx_chirho / 64) as usize;
        let bit_chirho = idx_chirho % 64;
        if word_chirho < 8 {
            proof {
                lemma_mask_test(self.0[word_chirho as int], bit_chirho as u64);
            }
            (self.0[word_chirho] & (1u64 << bit_chirho)) != 0
        } else {
            false
        }
    }
}

} // verus!
