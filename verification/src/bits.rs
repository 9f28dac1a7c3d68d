//! Bit-level vocabulary shared by every bit-parallel domain of the library:
//! which bits of a word are set, how many are set, and the basic facts that
//! connect the bitwise operators to set operations on bit positions.

use vstd::prelude::*;
use vstd::std_specs::bits::{u64_trailing_zeros, axiom_u64_trailing_zeros};

verus! {

/// Bit `i` of `x` is set (bits are numbered from the least significant one).
pub open spec fn bit64(x: u64, i: int) -> bool {
    0 <= i < 64 && (x >> (i as u64)) & 1u64 == 1u64
}

/// The set of bit positions that are set in `x`.
pub open spec fn set64(x: u64) -> Set<int> {
    Set::new(|i: int| bit64(x, i))
}

/// Number of set bits among the lowest `n` bits of `x`.
pub open spec fn pop_prefix(x: u64, n: nat) -> nat
    decreases n,
{
    if n == 0 {
        0
    } else {
        pop_prefix(x, (n - 1) as nat) + if bit64(x, n - 1) { 1nat } else { 0nat }
    }
}

/// Number of set bits of `x` (what `u64::count_ones` computes).
pub open spec fn popcount64(x: u64) -> nat {
    pop_prefix(x, 64)
}

/// Lowest set bit of `x` isolated (zero when `x` is zero).
pub open spec fn lowest64(x: u64) -> u64 {
    if x == 0 { 0 } else { 1u64 << u64_trailing_zeros(x) }
}

/// Mask with the lowest `n` bits set (`n <= 64`).
pub open spec fn low_mask64(n: u64) -> u64 {
    if n >= 64 { u64::MAX } else { ((1u64 << n) - 1) as u64 }
}

pub proof fn lemma_pop_prefix_bound(x: u64, n: nat)
    ensures
        pop_prefix(x, n) <= n,
    decreases n,
{
    if n > 0 {
        lemma_pop_prefix_bound(x, (n - 1) as nat);
    }
}

/// Counting set bits never gives more than the word width.
pub proof fn lemma_popcount64_bound(x: u64)
    ensures
        popcount64(x) <= 64,
{
    lemma_pop_prefix_bound(x, 64);
}

proof fn lemma_pop_prefix_zero(n: nat)
    requires
        n <= 64,
    ensures
        pop_prefix(0u64, n) == 0,
    decreases n,
{
    if n > 0 {
        lemma_pop_prefix_zero((n - 1) as nat);
        let k = (n - 1) as u64;
        assert((0u64 >> k) & 1u64 == 0u64) by (bit_vector);
    }
}

/// The empty word has no set bit.
pub proof fn lemma_popcount64_zero()
    ensures
        popcount64(0u64) == 0,
{
    lemma_pop_prefix_zero(64);
}

proof fn lemma_pop_prefix_nonzero(x: u64, n: nat, i: nat)
    requires
        i < n <= 64,
        bit64(x, i as int),
    ensures
        pop_prefix(x, n) >= 1,
    decreases n,
{
    if i < n - 1 {
        lemma_pop_prefix_nonzero(x, (n - 1) as nat, i);
    }
}

/// A word with a set bit has a positive count.
pub proof fn lemma_popcount64_pos(x: u64, i: int)
    requires
        bit64(x, i),
    ensures
        popcount64(x) >= 1,
{
    lemma_pop_prefix_nonzero(x, 64, i as nat);
}

/// A word is zero exactly when it has no set bit.
pub proof fn lemma_zero_iff_no_bits(x: u64)
    ensures
        x == 0 <==> (forall|i: int| !bit64(x, i)),
{
    if x != 0 {
        axiom_u64_trailing_zeros(x);
        let t = u64_trailing_zeros(x) as u64;
        assert(bit64(x, t as int));
    } else {
        assert forall|i: int| !bit64(x, i) by {
            if 0 <= i < 64 {
                let k = i as u64;
                assert((0u64 >> k) & 1u64 == 0u64) by (bit_vector);
            }
        }
    }
}

/// AND of two words is intersection of their bit sets.
pub proof fn lemma_and_bits(a: u64, b: u64, i: int)
    ensures
        bit64(a & b, i) == (bit64(a, i) && bit64(b, i)),
{
    if 0 <= i < 64 {
        let k = i as u64;
        assert(((a & b) >> k) & 1u64 == 1u64 <==> ((a >> k) & 1u64 == 1u64 && (b >> k) & 1u64
            == 1u64)) by (bit_vector);
    }
}

/// OR of two words is union of their bit sets.
pub proof fn lemma_or_bits(a: u64, b: u64, i: int)
    ensures
        bit64(a | b, i) == (bit64(a, i) || bit64(b, i)),
{
    if 0 <= i < 64 {
        let k = i as u64;
        assert(k < 64 ==> (((a | b) >> k) & 1u64 == 1u64 <==> ((a >> k) & 1u64 == 1u64 || (b >> k)
            & 1u64 == 1u64))) by (bit_vector);
    }
}

/// NOT of a word complements its bit set within the word.
pub proof fn lemma_not_bits(a: u64, i: int)
    ensures
        bit64(!a, i) == (0 <= i < 64 && !bit64(a, i)),
{
    if 0 <= i < 64 {
        let k = i as u64;
        assert(k < 64 ==> (((!a) >> k) & 1u64 == 1u64 <==> !((a >> k) & 1u64 == 1u64)))
            by (bit_vector);
    }
}

/// XOR of two words is the symmetric difference of their bit sets.
pub proof fn lemma_xor_bits(a: u64, b: u64, i: int)
    ensures
        bit64(a ^ b, i) == (bit64(a, i) != bit64(b, i)),
{
    if 0 <= i < 64 {
        let k = i as u64;
        assert(k < 64 ==> (((a ^ b) >> k) & 1u64 == 1u64 <==> ((a >> k) & 1u64 == 1u64) != ((b
            >> k) & 1u64 == 1u64))) by (bit_vector);
    }
}

/// The single-bit word `1 << j` has exactly bit `j` set.
pub proof fn lemma_shl_bits(j: u64, i: int)
    requires
        j < 64,
    ensures
        bit64(1u64 << j, i) == (i == j),
{
    if 0 <= i < 64 {
        let k = i as u64;
        assert(j < 64 && k < 64 ==> (((1u64 << j) >> k) & 1u64 == 1u64 <==> k == j))
            by (bit_vector);
    }
}

/// Testing a bit by masking agrees with `bit64`.
pub proof fn lemma_mask_test(x: u64, j: u64)
    requires
        j < 64,
    ensures
        ((x & (1u64 << j)) != 0) == bit64(x, j as int),
{
    assert(j < 64 ==> ((x & (1u64 << j)) != 0 <==> (x >> j) & 1u64 == 1u64)) by (bit_vector);
}

/// The low mask of `n` bits has exactly the bits below `n`.
pub proof fn lemma_low_mask_bits(n: u64, i: int)
    requires
        n <= 64,
    ensures
        bit64(low_mask64(n), i) == (0 <= i < n),
{
    if 0 <= i < 64 {
        let k = i as u64;
        if n < 64 {
            assert(n < 64 && k < 64 ==> ((((1u64 << n) - 1) as u64 >> k) & 1u64 == 1u64 <==> k
                < n)) by (bit_vector);
        } else {
            assert(k < 64 ==> ((0xffff_ffff_ffff_ffffu64 >> k) & 1u64 == 1u64)) by (bit_vector);
        }
    }
}

/// The isolated lowest bit is the lowest set bit.
pub proof fn lemma_lowest_bits(x: u64, i: int)
    ensures
        bit64(lowest64(x), i) == (bit64(x, i) && forall|j: int| 0 <= j < i ==> !bit64(x, j)),
{
    axiom_u64_trailing_zeros(x);
    if x == 0 {
        lemma_zero_iff_no_bits(0);
    } else {
        let t = u64_trailing_zeros(x) as u64;
        lemma_shl_bits(t, i);
        if 0 <= i < 64 {
            if i < t {
                assert((x >> (i as u64)) & 1u64 == 0u64);
            } else if i > t {
                assert(bit64(x, t as int));
            }
        }
    }
}

/// Exact count of set bits of `x`: the loop counts bit by bit.
pub fn popcount_u64(x: u64) -> (r: u32)
    ensures
        r == popcount64(x),
        r <= 64,
{
    let mut c: u32 = 0;
    let mut i: u64 = 0;
    while i < 64
        invariant
            i <= 64,
            c == pop_prefix(x, i as nat),
            c <= i,
        decreases 64 - i,
    {
        let b = (x >> i) & 1;
        assert(b == 0 || b == 1) by (bit_vector)
            requires
                b == (x >> i) & 1u64,
        ;
        proof {
            lemma_pop_prefix_bound(x, i as nat);
        }
        if b == 1 {
            c = c + 1;
        }
        i = i + 1;
    }
    c
}


/// Clearing the lowest set bit of a non-zero word removes exactly that bit.
pub proof fn lemma_clear_lowest(x: u64)
    requires
        x != 0,
    ensures
        u64_trailing_zeros(x) < 64,
        bit64(x, u64_trailing_zeros(x) as int),
        x & ((x - 1) as u64) < x,
        forall|j: int| #[trigger] bit64(x & ((x - 1) as u64), j) == (bit64(x, j) && j != u64_trailing_zeros(x)),
        forall|j: int| 0 <= j < u64_trailing_zeros(x) ==> !#[trigger] bit64(x, j),
{
    axiom_u64_trailing_zeros(x);
    let t = u64_trailing_zeros(x) as u64;
    let y = (64 - t) as u64;
    assert(x << y == 0);
    assert(x & ((x - 1) as u64) == x & !(1u64 << t) && x & ((x - 1) as u64) < x) by (bit_vector)
        requires
            t < 64,
            (x >> t) & 1u64 == 1u64,
            y == 64 - t,
            x << y == 0,
    ;
    assert forall|j: int| #[trigger] bit64(x & ((x - 1) as u64), j) == (bit64(x, j) && j != t) by {
        lemma_and_bits(x, !(1u64 << t), j);
        lemma_not_bits(1u64 << t, j);
        lemma_shl_bits(t, j);
    }
    assert forall|j: int| 0 <= j < t implies !#[trigger] bit64(x, j) by {
        assert((x >> (j as u64)) & 1u64 == 0u64);
    }
}


proof fn lemma_pop_prefix_mono(a: u64, b: u64, n: nat)
    requires
        n <= 64,
        forall|j: int| #[trigger] bit64(a, j) ==> bit64(b, j),
    ensures
        pop_prefix(a, n) <= pop_prefix(b, n),
        (exists|j: int| 0 <= j < n && bit64(b, j) && !bit64(a, j)) ==> pop_prefix(a, n) < pop_prefix(b, n),
    decreases n,
{
    if n > 0 {
        lemma_pop_prefix_mono(a, b, (n - 1) as nat);
        if exists|j: int| 0 <= j < n && bit64(b, j) && !bit64(a, j) {
            let j = choose|j: int| 0 <= j < n && bit64(b, j) && !bit64(a, j);
            if j < n - 1 {
                assert(exists|j: int| 0 <= j < n - 1 && bit64(b, j) && !bit64(a, j));
            }
        }
    }
}

/// A superset of bits has at least as many bits, and more when it is strictly larger.
pub proof fn lemma_popcount64_mono(a: u64, b: u64)
    requires
        forall|j: int| #[trigger] bit64(a, j) ==> bit64(b, j),
    ensures
        popcount64(a) <= popcount64(b),
        a != b ==> popcount64(a) < popcount64(b),
{
    lemma_pop_prefix_mono(a, b, 64);
    if a != b {
        lemma_zero_iff_no_bits(a ^ b);
        assert((a ^ b) != 0) by (bit_vector)
            requires
                a != b,
        ;
        let j = choose|j: int| bit64(a ^ b, j);
        lemma_xor_bits(a, b, j);
        assert(0 <= j < 64 && bit64(b, j) && !bit64(a, j));
    }
}

/// Two words with the same bits are equal.
pub proof fn lemma_bits_ext(a: u64, b: u64)
    requires
        forall|j: int| #[trigger] bit64(a, j) == bit64(b, j),
    ensures
        a == b,
{
    if a != b {
        lemma_zero_iff_no_bits(a ^ b);
        assert((a ^ b) != 0) by (bit_vector)
            requires
                a != b,
        ;
        let j = choose|j: int| bit64(a ^ b, j);
        lemma_xor_bits(a, b, j);
    }
}

/// The set bits among the lowest `n` bits of `x`.
pub open spec fn set_prefix(x: u64, n: nat) -> Set<int> {
    Set::new(|i: int| 0 <= i < n && bit64(x, i))
}

proof fn lemma_set_prefix_card(x: u64, n: nat)
    ensures
        set_prefix(x, n).finite(),
        set_prefix(x, n).len() == pop_prefix(x, n),
    decreases n,
{
    if n == 0 {
        assert(set_prefix(x, 0) =~= Set::<int>::empty());
    } else {
        let m = (n - 1) as nat;
        lemma_set_prefix_card(x, m);
        if bit64(x, m as int) {
            assert(set_prefix(x, n) =~= set_prefix(x, m).insert(m as int));
            assert(!set_prefix(x, m).contains(m as int));
        } else {
            assert(set_prefix(x, n) =~= set_prefix(x, m));
        }
    }
}

/// The number of set bits is the size of the set of their positions.
pub proof fn lemma_popcount_card(x: u64)
    ensures
        set64(x).finite(),
        set64(x).len() == popcount64(x),
{
    lemma_set_prefix_card(x, 64);
    assert(set64(x) =~= set_prefix(x, 64));
}

/// A word with one set bit holds exactly its lowest bit.
pub proof fn lemma_single_bit(x: u64)
    requires
        popcount64(x) == 1,
    ensures
        u64_trailing_zeros(x) < 64,
        bit64(x, u64_trailing_zeros(x) as int),
        forall|j: int| #[trigger] bit64(x, j) ==> j == u64_trailing_zeros(x),
{
    if x == 0 {
        lemma_popcount64_zero();
    }
    lemma_clear_lowest(x);
    let y = x & ((x - 1) as u64);
    assert forall|j: int| #[trigger] bit64(y, j) implies bit64(x, j) by {}
    lemma_popcount64_mono(y, x);
    assert forall|j: int| #[trigger] bit64(x, j) implies j == u64_trailing_zeros(x) by {
        if j != u64_trailing_zeros(x) {
            assert(bit64(y, j));
            lemma_popcount64_pos(y, j);
        }
    }
}

} // verus!
