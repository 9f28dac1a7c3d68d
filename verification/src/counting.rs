//! Counting the integers of a window that meet a predicate, and the facts
//! that tie such counts to set sizes and to the set bits of words.

use vstd::prelude::*;
use crate::bits::{bit64, pop_prefix, popcount64};
use crate::hardware::popcount_words;

verus! {

/// How many of `lo, lo + 1, ..., lo + n - 1` meet `f`.
pub open spec fn count_in(f: spec_fn(int) -> bool, lo: int, n: nat) -> nat
    decreases n,
{
    if n == 0 {
        0
    } else {
        count_in(f, lo, (n - 1) as nat) + if f(lo + n - 1) { 1nat } else { 0nat }
    }
}

/// The integers of `lo..lo + n` that meet `f`.
pub open spec fn window_set(f: spec_fn(int) -> bool, lo: int, n: nat) -> Set<int> {
    Set::new(|v: int| lo <= v < lo + n && f(v))
}

/// The count is the size of the set it counts.
pub proof fn lemma_count_in_card(f: spec_fn(int) -> bool, lo: int, n: nat)
    ensures
        window_set(f, lo, n).finite(),
        window_set(f, lo, n).len() == count_in(f, lo, n),
    decreases n,
{
    if n == 0 {
        assert(window_set(f, lo, 0) =~= Set::<int>::empty());
    } else {
        let m = (n - 1) as nat;
        lemma_count_in_card(f, lo, m);
        let top = lo + m;
        if f(top) {
            assert(window_set(f, lo, n) =~= window_set(f, lo, m).insert(top));
        } else {
            assert(window_set(f, lo, n) =~= window_set(f, lo, m));
        }
    }
}

/// Counting a window in two parts.
pub proof fn lemma_count_in_split(f: spec_fn(int) -> bool, lo: int, a: nat, b: nat)
    ensures
        count_in(f, lo, a + b) == count_in(f, lo, a) + count_in(f, lo + a, b),
    decreases b,
{
    if b > 0 {
        lemma_count_in_split(f, lo, a, (b - 1) as nat);
        assert((a + b - 1) as nat == a + (b - 1) as nat);
    }
}

/// Predicates that agree on the window count alike.
pub proof fn lemma_count_in_ext(f: spec_fn(int) -> bool, g: spec_fn(int) -> bool, lo: int, n: nat)
    requires
        forall|v: int| lo <= v < lo + n ==> #[trigger] f(v) == g(v),
    ensures
        count_in(f, lo, n) == count_in(g, lo, n),
    decreases n,
{
    if n > 0 {
        lemma_count_in_ext(f, g, lo, (n - 1) as nat);
    }
}

/// A window where nothing meets the predicate counts zero.
pub proof fn lemma_count_in_none(f: spec_fn(int) -> bool, lo: int, n: nat)
    requires
        forall|v: int| lo <= v < lo + n ==> !#[trigger] f(v),
    ensures
        count_in(f, lo, n) == 0,
    decreases n,
{
    if n > 0 {
        lemma_count_in_none(f, lo, (n - 1) as nat);
    }
}

proof fn lemma_count_prefix(w: u64, f: spec_fn(int) -> bool, lo: int, n: nat)
    requires
        n <= 64,
        forall|v: int| lo <= v < lo + 64 ==> #[trigger] f(v) == bit64(w, v - lo),
    ensures
        count_in(f, lo, n) == pop_prefix(w, n),
    decreases n,
{
    if n > 0 {
        lemma_count_prefix(w, f, lo, (n - 1) as nat);
    }
}

/// A window of 64 read as the bits of a word counts the word's set bits.
pub proof fn lemma_count_word(w: u64, f: spec_fn(int) -> bool, lo: int)
    requires
        forall|v: int| lo <= v < lo + 64 ==> #[trigger] f(v) == bit64(w, v - lo),
    ensures
        count_in(f, lo, 64) == popcount64(w),
{
    lemma_count_prefix(w, f, lo, 64);
}

/// A window of `64 * k` read as the bits of `k` words counts their set bits.
pub proof fn lemma_count_words(w: Seq<u64>, k: nat, f: spec_fn(int) -> bool, lo: int)
    requires
        k <= w.len(),
        forall|v: int| lo <= v < lo + 64 * k ==> #[trigger] f(v) == bit64(w[(v - lo) / 64], (v - lo) % 64),
    ensures
        count_in(f, lo, 64 * k) == popcount_words(w, k),
    decreases k,
{
    if k > 0 {
        let m = (k - 1) as nat;
        lemma_count_words(w, m, f, lo);
        lemma_count_in_split(f, lo, 64 * m, 64);
        assert(64 * m + 64 == 64 * k);
        let base = lo + 64 * m;
        assert forall|v: int| base <= v < base + 64 implies #[trigger] f(v) == bit64(w[m as int], v - base) by {
            assert((v - lo) / 64 == m);
            assert((v - lo) % 64 == v - base);
        }
        lemma_count_word(w[m as int], f, base);
    }
}

} // verus!
