//! Domains over all `u64` values kept as sparse pages of 64-bit words: page
//! `p` holds the values `64 * p .. 64 * p + 63`, and only pages that hold a
//! value are stored.

use vstd::prelude::*;
use std::collections::HashMap;
use vstd::std_specs::hash::spec_hash_map_iter;
use vstd::std_specs::iter::IteratorSpec;
use crate::bits::{bit64, set64, popcount64, lemma_and_bits, lemma_or_bits, lemma_not_bits, lemma_shl_bits,
    lemma_zero_iff_no_bits, lemma_low_mask_bits, low_mask64, lemma_popcount_card};
use crate::hardware::BitVec64Chirho;

verus! {

broadcast use {vstd::std_specs::hash::group_hash_axioms, vstd::seq_lib::lemma_seq_contains_after_push};

/// Largest page number (the page of `u64::MAX`).
pub open spec fn max_page() -> u64 {
    u64::MAX / 64
}

/// The values that page `p` with bits `b` stands for.
pub open spec fn page_values(p: u64, b: u64) -> Set<u64> {
    Set::new(|v: u64| v / 64 == p && bit64(b, (v % 64) as int))
}

/// A page holds as many values as its word has set bits.
proof fn lemma_page_card(p: u64, b: u64)
    requires
        p <= max_page(),
    ensures
        page_values(p, b).finite(),
        page_values(p, b).len() == popcount64(b),
{
    lemma_popcount_card(b);
    let f = |i: int| (64 * p + i) as u64;
    let x = set64(b);
    assert forall|i: int, j: int| x.contains(i) && x.contains(j) && #[trigger] f(i) == #[trigger] f(j) implies i == j by {
        assert(0 <= i < 64 && 0 <= j < 64);
        assert(64 * p + 63 <= u64::MAX);
    }
    assert forall|v: u64| #[trigger] page_values(p, b).contains(v) == x.map(f).contains(v) by {
        if page_values(p, b).contains(v) {
            let i = (v % 64) as int;
            assert(v == 64 * p + i);
            assert(x.contains(i) && f(i) == v);
        }
        if x.map(f).contains(v) {
            let i = choose|i: int| x.contains(i) && f(i) == v;
            assert(0 <= i < 64);
            assert(64 * p + 63 <= u64::MAX);
            assert(v == 64 * p + i);
            assert(v / 64 == p && v % 64 == i) by {
                vstd::arithmetic::div_mod::lemma_fundamental_div_mod_converse(v as int, 64, p as int, i);
            }
        }
    }
    assert(page_values(p, b) =~= x.map(f));
    vstd::set_lib::lemma_map_size(x, page_values(p, b), f);
}

/// Values of a domain held in sparse 64-bit pages.
#[derive(Debug)]
pub struct PagedDomainChirho {
    pages_chirho: HashMap<u64, BitVec64Chirho>,
}

impl PagedDomainChirho {
    #[verifier::type_invariant]
    spec fn inv(self) -> bool {
        forall|k: u64| #[trigger] self.pages_chirho@.contains_key(k) ==> self.pages_chirho@[k].0 != 0 && k <= max_page()
    }

    /// The stored pages.
    pub closed spec fn pages(&self) -> Map<u64, BitVec64Chirho> {
        self.pages_chirho@
    }

    /// `v` is in the domain.
    pub open spec fn has(&self, v: u64) -> bool {
        self.pages().contains_key(v / 64) && bit64(self.pages()[v / 64].0, (v % 64) as int)
    }

    /// Every value of the domain lies below 64.
    pub open spec fn below_64(&self) -> bool {
        forall|v: u64| #[trigger] self.has(v) ==> v < 64
    }

    /// The values of the domain.
    pub open spec fn values(&self) -> Set<u64> {
        Set::new(|v: u64| self.has(v))
    }

    fn from_pages_chirho(pages_chirho: HashMap<u64, BitVec64Chirho>) -> (r: Self)
        requires
            forall|k: u64| #[trigger] pages_chirho@.contains_key(k) ==> pages_chirho@[k].0 != 0 && k <= max_page(),
        ensures
            r.pages() == pages_chirho@,
    {
        Self { pages_chirho }
    }

    /// No value.
    pub fn empty_chirho() -> (r: Self)
        ensures
            r.pages() == Map::<u64, BitVec64Chirho>::empty(),
            forall|v: u64| !#[trigger] r.has(v),
    {
        Self::from_pages_chirho(HashMap::new())
    }

    /// The values `0..=max_value`.
    pub fn range_chirho(max_value_chirho: u64) -> (r: Self)
        ensures
            forall|v: u64| #[trigger] r.has(v) == (v <= max_value_chirho),
    {
        let mut pages: HashMap<u64, BitVec64Chirho> = HashMap::new();
        let full_pages = max_value_chirho / 64;
        let mut page: u64 = 0;
        proof {
            crate::bits::lemma_low_mask_bits(64, 0);
        }
        while page < full_pages
            invariant
                page <= full_pages,
                full_pages == max_value_chirho / 64,
                forall|k: u64| #[trigger] pages@.contains_key(k) == (k < page),
                forall|k: u64| #[trigger] pages@.contains_key(k) ==> pages@[k].0 == u64::MAX,
            decreases full_pages - page,
        {
            pages.insert(page, BitVec64Chirho::ONES_CHIRHO());
            page = page + 1;
        }
        let rem = max_value_chirho % 64;
        let mask: u64 = if rem == 63 {
            u64::MAX
        } else {
            assert((1u64 << ((rem + 1) as u64)) >= 1) by (bit_vector)
                requires
                    rem < 63,
            ;
            (1u64 << (rem + 1)) - 1
        };
        proof {
            assert(mask == low_mask64((rem + 1) as u64));
            assert forall|i: int| #[trigger] bit64(mask, i) == (0 <= i <= rem) by {
                lemma_low_mask_bits((rem + 1) as u64, i);
            }
            assert(bit64(mask, 0));
        }
        pages.insert(full_pages, BitVec64Chirho(mask));
        proof {
            assert forall|k: u64| #[trigger] pages@.contains_key(k) implies pages@[k].0 != 0 && k <= max_page() by {
                if k < full_pages {
                    lemma_zero_iff_no_bits(u64::MAX);
                    lemma_low_mask_bits(64, 0);
                } else {
                    lemma_zero_iff_no_bits(mask);
                }
            }
        }
        let r = Self::from_pages_chirho(pages);
        proof {
            vstd::arithmetic::div_mod::lemma_fundamental_div_mod(max_value_chirho as int, 64);
            assert forall|v: u64| #[trigger] r.has(v) == (v <= max_value_chirho) by {
                let p = v / 64;
                vstd::arithmetic::div_mod::lemma_fundamental_div_mod(v as int, 64);
                assert(pages@.contains_key(p) == (p <= full_pages));
                if p < full_pages {
                    lemma_low_mask_bits(64, (v % 64) as int);
                    assert(v <= max_value_chirho);
                } else if p == full_pages {
                    assert((v <= max_value_chirho) == (v % 64 <= rem));
                }
            }
        }
        r
    }

    /// Exactly `value`.
    pub fn singleton_chirho(value_chirho: u64) -> (r: Self)
        ensures
            forall|v: u64| #[trigger] r.has(v) == (v == value_chirho),
    {
        let page = value_chirho / 64;
        let bit = value_chirho % 64;
        let mut pages: HashMap<u64, BitVec64Chirho> = HashMap::new();
        pages.insert(page, BitVec64Chirho(1u64 << bit));
        proof {
            lemma_shl_bits(bit, bit as int);
            lemma_zero_iff_no_bits(1u64 << bit);
        }
        let r = Self::from_pages_chirho(pages);
        proof {
            assert forall|v: u64| #[trigger] r.has(v) == (v == value_chirho) by {
                if v / 64 == page {
                    lemma_shl_bits(bit, (v % 64) as int);
                }
            }
        }
        r
    }

    /// Is `value` in the domain?
    pub fn contains_chirho(&self, value_chirho: u64) -> (r: bool)
        ensures
            r == self.has(value_chirho),
    {
        let page = value_chirho / 64;
        let bit = value_chirho % 64;
        match self.pages_chirho.get(&page) {
            Some(p) => p.test_bit_chirho(bit as u32),
            None => false,
        }
    }

    /// Add `value`.
    pub fn insert_chirho(&mut self, value_chirho: u64)
        ensures
            forall|v: u64| #[trigger] final(self).has(v) == (old(self).has(v) || v == value_chirho),
    {
        proof {
            use_type_invariant(&*self);
        }
        let page = value_chirho / 64;
        let bit = value_chirho % 64;
        let existing: u64 = match self.pages_chirho.get(&page) {
            Some(p) => p.0,
            None => 0,
        };
        let mut pages: HashMap<u64, BitVec64Chirho> = HashMap::new();
        std::mem::swap(&mut pages, &mut self.pages_chirho);
        let ghost before = pages@;
        let word = existing | (1u64 << bit);
        pages.insert(page, BitVec64Chirho(word));
        proof {
            lemma_or_bits(existing, 1u64 << bit, bit as int);
            lemma_shl_bits(bit, bit as int);
            lemma_zero_iff_no_bits(word);
            assert forall|k: u64| #[trigger] pages@.contains_key(k) implies pages@[k].0 != 0 && k <= max_page() by {
                if k != page {
                    assert(before.contains_key(k));
                }
            }
        }
        self.pages_chirho = pages;
        proof {
            assert forall|v: u64| #[trigger] self.has(v) == (old(self).has(v) || v == value_chirho) by {
                if v / 64 == page {
                    lemma_or_bits(existing, 1u64 << bit, (v % 64) as int);
                    lemma_shl_bits(bit, (v % 64) as int);
                    if !before.contains_key(page) {
                        lemma_zero_iff_no_bits(0);
                    }
                }
            }
        }
    }

    /// Drop `value` (a page that becomes empty is dropped too).
    pub fn remove_chirho(&mut self, value_chirho: u64)
        ensures
            forall|v: u64| #[trigger] final(self).has(v) == (old(self).has(v) && v != value_chirho),
    {
        proof {
            use_type_invariant(&*self);
        }
        let page = value_chirho / 64;
        let bit = value_chirho % 64;
        let existing: Option<u64> = match self.pages_chirho.get(&page) {
            Some(p) => Some(p.0),
            None => None,
        };
        if let Some(bits) = existing {
            let mut pages: HashMap<u64, BitVec64Chirho> = HashMap::new();
            std::mem::swap(&mut pages, &mut self.pages_chirho);
            let ghost before = pages@;
            let word = bits & !(1u64 << bit);
            if word == 0 {
                pages.remove(&page);
            } else {
                pages.insert(page, BitVec64Chirho(word));
            }
            proof {
                assert forall|k: u64| #[trigger] pages@.contains_key(k) implies pages@[k].0 != 0 && k <= max_page() by {
                    if k != page {
                        assert(before.contains_key(k));
                    }
                }
            }
            self.pages_chirho = pages;
            proof {
                assert forall|v: u64| #[trigger] self.has(v) == (old(self).has(v) && v != value_chirho) by {
                    if v / 64 == page {
                        let i = (v % 64) as int;
                        lemma_and_bits(bits, !(1u64 << bit), i);
                        lemma_not_bits(1u64 << bit, i);
                        lemma_shl_bits(bit, i);
                        if word == 0 {
                            lemma_zero_iff_no_bits(0);
                        }
                        if i == bit as int {
                            assert(v == value_chirho);
                        }
                    }
                }
            }
        }
    }

    /// Intersection, page by page (pages left empty are not stored).
    pub fn intersect_chirho(&self, other_chirho: &Self) -> (r: Self)
        ensures
            forall|v: u64| #[trigger] r.has(v) == (self.has(v) && other_chirho.has(v)),
    {
        proof {
            use_type_invariant(self);
            use_type_invariant(other_chirho);
        }
        let ghost s = spec_hash_map_iter(&self.pages_chirho).remaining();
        let ghost mut seen: int = 0;
        let mut result: HashMap<u64, BitVec64Chirho> = HashMap::new();
        for pair in it: self.pages_chirho.iter()
            invariant
                it.seq() == s,
                seen == it.index(),
                forall|i: int| 0 <= i < s.len() ==> self.pages_chirho@.contains_key(*(#[trigger] s[i]).0)
                    && self.pages_chirho@[*s[i].0] == *s[i].1,
                forall|k: u64| #[trigger] self.pages_chirho@.contains_key(k) ==> self.pages_chirho@[k].0 != 0 && k <= max_page(),
                forall|k: u64| #[trigger] result@.contains_key(k) ==> self.pages_chirho@.contains_key(k)
                    && other_chirho.pages_chirho@.contains_key(k)
                    && result@[k].0 == self.pages_chirho@[k].0 & other_chirho.pages_chirho@[k].0
                    && result@[k].0 != 0,
                forall|i: int| 0 <= i < seen && other_chirho.pages_chirho@.contains_key(*s[i].0)
                    && (self.pages_chirho@[*(#[trigger] s[i]).0].0 & other_chirho.pages_chirho@[*s[i].0].0) != 0
                    ==> result@.contains_key(*s[i].0),
        {
            let (k, b) = pair;
            proof {
                assert(pair == s[seen]);
            }
            if let Some(ob) = other_chirho.pages_chirho.get(k) {
                let both = b.and_chirho(*ob);
                if !both.is_zero_chirho() {
                    result.insert(*k, both);
                }
            }
            proof {
                seen = seen + 1;
            }
        }
        proof {
            assert forall|k: u64| #[trigger] result@.contains_key(k) implies result@[k].0 != 0 && k <= max_page() by {}
        }
        let r = Self::from_pages_chirho(result);
        proof {
            assert forall|v: u64| #[trigger] r.has(v) == (self.has(v) && other_chirho.has(v)) by {
                let p = v / 64;
                let i = (v % 64) as int;
                if self.has(v) && other_chirho.has(v) {
                    assert(s.contains((&p, &self.pages_chirho@[p])));
                    let j = choose|j: int| 0 <= j < s.len() && s[j] == (&p, &self.pages_chirho@[p]);
                    lemma_and_bits(self.pages_chirho@[p].0, other_chirho.pages_chirho@[p].0, i);
                    lemma_zero_iff_no_bits(self.pages_chirho@[p].0 & other_chirho.pages_chirho@[p].0);
                    assert(result@.contains_key(*s[j].0));
                }
                if r.has(v) {
                    lemma_and_bits(self.pages_chirho@[p].0, other_chirho.pages_chirho@[p].0, i);
                }
            }
        }
        r
    }

    /// Union, page by page.
    pub fn union_chirho(&self, other_chirho: &Self) -> (r: Self)
        ensures
            forall|v: u64| #[trigger] r.has(v) == (self.has(v) || other_chirho.has(v)),
    {
        proof {
            use_type_invariant(self);
            use_type_invariant(other_chirho);
        }
        let ghost s1 = spec_hash_map_iter(&self.pages_chirho).remaining();
        let ghost mut seen1: int = 0;
        let mut result: HashMap<u64, BitVec64Chirho> = HashMap::new();
        for pair in it: self.pages_chirho.iter()
            invariant
                it.seq() == s1,
                seen1 == it.index(),
                forall|i: int| 0 <= i < s1.len() ==> self.pages_chirho@.contains_key(*(#[trigger] s1[i]).0)
                    && self.pages_chirho@[*s1[i].0] == *s1[i].1,
                forall|k: u64| #[trigger] result@.contains_key(k) ==> self.pages_chirho@.contains_key(k)
                    && result@[k] == self.pages_chirho@[k],
                forall|i: int| 0 <= i < seen1 ==> result@.contains_key(*(#[trigger] s1[i]).0),
        {
            let (k, b) = pair;
            proof {
                assert(pair == s1[seen1]);
            }
            result.insert(*k, *b);
            proof {
                seen1 = seen1 + 1;
            }
        }
        proof {
            assert forall|k: u64| #[trigger] self.pages_chirho@.contains_key(k) implies result@.contains_key(k) by {
                assert(s1.contains((&k, &self.pages_chirho@[k])));
                let j = choose|j: int| 0 <= j < s1.len() && s1[j] == (&k, &self.pages_chirho@[k]);
                assert(result@.contains_key(*s1[j].0));
            }
        }
        proof {
            assert forall|k: u64| #[trigger] result@.contains_key(k) implies result@[k].0 == (
                if self.pages_chirho@.contains_key(k) { self.pages_chirho@[k].0 } else { 0 }) | 0u64 by {
                let x = result@[k].0;
                assert(x | 0u64 == x) by (bit_vector);
            }
            assert forall|k: u64| #[trigger] result@.contains_key(k) == self.pages_chirho@.contains_key(k) by {}
        }
        let ghost s2 = spec_hash_map_iter(&other_chirho.pages_chirho).remaining();
        let ghost mut seen2: int = 0;
        for pair in it: other_chirho.pages_chirho.iter()
            invariant
                it.seq() == s2,
                s2.no_duplicates(),
                seen2 == it.index(),
                forall|i: int| 0 <= i < s2.len() ==> other_chirho.pages_chirho@.contains_key(*(#[trigger] s2[i]).0)
                    && other_chirho.pages_chirho@[*s2[i].0] == *s2[i].1,
                forall|k: u64| #[trigger] result@.contains_key(k) == (self.pages_chirho@.contains_key(k)
                    || exists|i: int| 0 <= i < seen2 && *s2[i].0 == k),
                forall|k: u64| #[trigger] result@.contains_key(k) ==> result@[k].0 == (
                    if self.pages_chirho@.contains_key(k) { self.pages_chirho@[k].0 } else { 0 }) | (
                    if exists|i: int| 0 <= i < seen2 && *s2[i].0 == k { other_chirho.pages_chirho@[k].0 } else { 0 }),
        {
            let (k, b) = pair;
            proof {
                assert(pair == s2[seen2]);
                assert forall|i: int| 0 <= i < seen2 implies *(#[trigger] s2[i]).0 != *k by {
                    if *s2[i].0 == *k {
                        assert(s2[i] == s2[seen2]);
                    }
                }
            }
            let merged = match result.get(k) {
                Some(existing) => existing.or_chirho(*b),
                None => *b,
            };
            result.insert(*k, merged);
            proof {
                assert forall|kk: u64| #[trigger] result@.contains_key(kk) implies result@[kk].0 == (
                    if self.pages_chirho@.contains_key(kk) { self.pages_chirho@[kk].0 } else { 0 }) | (
                    if exists|i: int| 0 <= i < seen2 + 1 && *s2[i].0 == kk { other_chirho.pages_chirho@[kk].0 } else { 0 }) by {
                    if kk == *k {
                        assert(*s2[seen2].0 == kk);
                        if !(exists|i: int| 0 <= i < seen2 && *s2[i].0 == kk) {
                            assert(0u64 | b.0 == b.0) by (bit_vector);
                            let x = self.pages_chirho@[kk].0;
                            assert(x | 0u64 == x) by (bit_vector);
                        } else {
                            let x = self.pages_chirho@[kk].0;
                            let y = b.0;
                            assert(x | y | y == x | y) by (bit_vector);
                            assert(0u64 | y | y == 0u64 | y) by (bit_vector);
                        }
                    } else {
                        if exists|i: int| 0 <= i < seen2 + 1 && *s2[i].0 == kk {
                            let i = choose|i: int| 0 <= i < seen2 + 1 && *s2[i].0 == kk;
                            assert(i < seen2);
                        }
                    }
                }
                seen2 = seen2 + 1;
            }
        }
        proof {
            assert forall|k: u64| #[trigger] result@.contains_key(k) implies result@[k].0 != 0 && k <= max_page() by {
                let a = if self.pages_chirho@.contains_key(k) { self.pages_chirho@[k].0 } else { 0u64 };
                let bb = if exists|i: int| 0 <= i < s2.len() && *s2[i].0 == k { other_chirho.pages_chirho@[k].0 } else { 0u64 };
                if exists|i: int| 0 <= i < s2.len() && *s2[i].0 == k {
                    let i = choose|i: int| 0 <= i < s2.len() && *s2[i].0 == k;
                    assert(other_chirho.pages_chirho@.contains_key(k));
                }
                assert((a != 0 || bb != 0) ==> (a | bb) != 0) by (bit_vector);
            }
        }
        let r = Self::from_pages_chirho(result);
        proof {
            assert forall|v: u64| #[trigger] r.has(v) == (self.has(v) || other_chirho.has(v)) by {
                let p = v / 64;
                let i = (v % 64) as int;
                let a = if self.pages_chirho@.contains_key(p) { self.pages_chirho@[p].0 } else { 0u64 };
                let in2 = exists|j: int| 0 <= j < s2.len() && *s2[j].0 == p;
                if other_chirho.pages_chirho@.contains_key(p) {
                    assert(s2.contains((&p, &other_chirho.pages_chirho@[p])));
                    let j = choose|j: int| 0 <= j < s2.len() && s2[j] == (&p, &other_chirho.pages_chirho@[p]);
                    assert(*s2[j].0 == p);
                }
                if in2 {
                    let j = choose|j: int| 0 <= j < s2.len() && *s2[j].0 == p;
                    assert(other_chirho.pages_chirho@.contains_key(p));
                }
                let bb = if in2 { other_chirho.pages_chirho@[p].0 } else { 0u64 };
                lemma_or_bits(a, bb, i);
                lemma_zero_iff_no_bits(0);
            }
        }
        r
    }

    /// No value at all.
    pub fn is_empty_chirho(&self) -> (r: bool)
        ensures
            r == (self.values() == Set::<u64>::empty()),
    {
        proof {
            use_type_invariant(self);
        }
        let r = self.pages_chirho.is_empty();
        proof {
            if r {
                assert(self.values() =~= Set::<u64>::empty());
            } else {
                let k = self.pages_chirho@.dom().choose();
                assert(self.pages_chirho@.dom().len() > 0);
                vstd::set_lib::lemma_set_empty_equivalency_len(self.pages_chirho@.dom());
                assert(self.pages_chirho@.contains_key(k));
                lemma_zero_iff_no_bits(self.pages_chirho@[k].0);
                let i = choose|i: int| bit64(self.pages_chirho@[k].0, i);
                let v = (64 * k + i) as u64;
                assert(64 * k + 63 <= u64::MAX);
                vstd::arithmetic::div_mod::lemma_fundamental_div_mod_converse(v as int, 64, k as int, i);
                assert(self.has(v));
                assert(self.values().contains(v));
            }
        }
        r
    }

    /// Number of values (the counts of the pages added up).
    pub fn count_chirho(&self) -> (r: u64)
        requires
            self.values().len() <= u64::MAX,
        ensures
            self.values().finite(),
            r == self.values().len(),
    {
        proof {
            use_type_invariant(self);
        }
        let ghost s = spec_hash_map_iter(&self.pages_chirho).remaining();
        let ghost mut seen: int = 0;
        let ghost mut acc: Set<u64> = Set::empty();
        let mut total: u64 = 0;
        proof {
            lemma_u64_set_finite(self.values());
        }
        for pair in it: self.pages_chirho.iter()
            invariant
                it.seq() == s,
                seen == it.index(),
                s.no_duplicates(),
                forall|i: int| 0 <= i < s.len() ==> self.pages_chirho@.contains_key(*(#[trigger] s[i]).0)
                    && self.pages_chirho@[*s[i].0] == *s[i].1,
                forall|k: u64| #[trigger] self.pages_chirho@.contains_key(k) ==> self.pages_chirho@[k].0 != 0 && k <= max_page(),
                self.values().finite(),
                self.values().len() <= u64::MAX,
                acc.finite(),
                acc.subset_of(self.values()),
                forall|v: u64| #[trigger] acc.contains(v) == exists|i: int| 0 <= i < seen && *s[i].0 == v / 64 && self.has(v),
                total == acc.len(),
        {
            let (k, b) = pair;
            proof {
                assert(pair == s[seen]);
                lemma_page_card(*k, b.0);
                let pv = page_values(*k, b.0);
                assert(acc.disjoint(pv)) by {
                    assert forall|v: u64| acc.contains(v) implies !pv.contains(v) by {
                        let i = choose|i: int| 0 <= i < seen && *s[i].0 == v / 64 && self.has(v);
                        if pv.contains(v) {
                            assert(s[i].0 == s[seen].0);
                            assert(s[i] == s[seen]);
                        }
                    }
                }
                vstd::set_lib::lemma_set_disjoint_lens(acc, pv);
                assert forall|v: u64| #[trigger] (acc + pv).contains(v) == exists|i: int| 0 <= i < seen + 1 && *s[i].0 == v / 64 && self.has(v) by {
                    if pv.contains(v) {
                        assert(*s[seen].0 == v / 64 && self.has(v));
                    }
                    if exists|i: int| 0 <= i < seen + 1 && *s[i].0 == v / 64 && self.has(v) {
                        let i = choose|i: int| 0 <= i < seen + 1 && *s[i].0 == v / 64 && self.has(v);
                        if i == seen {
                            assert(pv.contains(v));
                        }
                    }
                }
                assert((acc + pv).subset_of(self.values()));
                vstd::set_lib::lemma_len_subset(acc + pv, self.values());
                assert(pv.len() == popcount64(b.0));
            }
            let c = b.popcount_chirho();
            total = total + c as u64;
            proof {
                acc = acc + page_values(*k, b.0);
                seen = seen + 1;
            }
        }
        proof {
            assert(seen == s.len());
            assert(acc =~= self.values()) by {
                assert forall|v: u64| #[trigger] self.values().contains(v) implies acc.contains(v) by {
                    let p = v / 64;
                    assert(s.contains((&p, &self.pages_chirho@[p])));
                    let j = choose|j: int| 0 <= j < s.len() && s[j] == (&p, &self.pages_chirho@[p]);
                    assert(*s[j].0 == v / 64);
                }
            }
        }
        total
    }

    /// The values in increasing order.
    pub fn iter_chirho(&self) -> (r: Vec<u64>)
        ensures
            forall|k: int, l: int| 0 <= k < l < r.len() ==> #[trigger] r[k] < #[trigger] r[l],
            forall|v: u64| r@.contains(v) == #[trigger] self.has(v),
    {
        proof {
            use_type_invariant(self);
        }
        let ghost s = spec_hash_map_iter(&self.pages_chirho).remaining();
        let mut keys: Vec<u64> = Vec::new();
        let ghost mut seen: int = 0;
        for pair in it: self.pages_chirho.iter()
            invariant
                it.seq() == s,
                seen == it.index(),
                forall|i: int| 0 <= i < s.len() ==> self.pages_chirho@.contains_key(*(#[trigger] s[i]).0),
                forall|k: int, l: int| 0 <= k < l < keys.len() ==> #[trigger] keys[k] < #[trigger] keys[l],
                forall|k: u64| keys@.contains(k) == exists|i: int| 0 <= i < seen && *(#[trigger] s[i]).0 == k,
        {
            let (k, _b) = pair;
            proof {
                assert(pair == s[seen]);
            }
            insert_sorted_chirho(&mut keys, *k);
            proof {
                assert forall|x: u64| keys@.contains(x) == exists|i: int| 0 <= i < seen + 1 && *(#[trigger] s[i]).0 == x by {
                    if x == *k {
                        assert(*s[seen].0 == x);
                    }
                }
                seen = seen + 1;
            }
        }
        proof {
            assert(seen == s.len());
            assert forall|t: int| 0 <= t < keys.len() implies #[trigger] self.pages_chirho@.contains_key(keys[t]) by {
                assert(keys@.contains(keys[t]));
                let i = choose|i: int| 0 <= i < seen && *(#[trigger] s[i]).0 == keys[t];
            }
        }
        let mut out: Vec<u64> = Vec::new();
        let mut j: usize = 0;
        while j < keys.len()
            invariant
                j <= keys.len(),
                forall|k: int, l: int| 0 <= k < l < keys.len() ==> #[trigger] keys[k] < #[trigger] keys[l],
                forall|k: int| 0 <= k < keys.len() ==> #[trigger] self.pages_chirho@.contains_key(keys[k]),
                forall|k: u64| #[trigger] self.pages_chirho@.contains_key(k) ==> self.pages_chirho@[k].0 != 0 && k <= max_page(),
                forall|k: int, l: int| 0 <= k < l < out.len() ==> #[trigger] out[k] < #[trigger] out[l],
                forall|k: int| 0 <= k < out.len() ==> (#[trigger] out[k]) / 64 < (if j < keys.len() { keys[j as int] as int } else { u64::MAX as int + 1 }),
                forall|v: u64| #[trigger] out@.contains(v) == (self.has(v) && exists|t: int| 0 <= t < j && #[trigger] keys[t] == v / 64),
            decreases keys.len() - j,
        {
            let page = keys[j];
            let bits = match self.pages_chirho.get(&page) {
                Some(b) => b.0,
                None => 0,
            };
            let mut i: u64 = 0;
            let ghost out0 = out@;
            while i < 64
                invariant
                    i <= 64,
                    j < keys.len(),
                    page == keys[j as int],
                    page <= max_page(),
                    self.pages_chirho@.contains_key(page),
                    bits == self.pages_chirho@[page].0,
                    forall|k: int, l: int| 0 <= k < l < out.len() ==> #[trigger] out[k] < #[trigger] out[l],
                    forall|k: int| 0 <= k < out0.len() ==> (#[trigger] out0[k]) / 64 < page,
                    out@.len() >= out0.len(),
                    forall|k: int| 0 <= k < out0.len() ==> #[trigger] out@[k] == out0[k],
                    forall|k: int| out0.len() <= k < out.len() ==> (#[trigger] out[k]) / 64 == page && out[k] % 64 < i,
                    forall|v: u64| #[trigger] out@.contains(v) == (out0.contains(v) || (v / 64 == page && v % 64 < i && bit64(bits, (v % 64) as int))),
                decreases 64 - i,
            {
                let ghost before = out@;
                let hit = (bits >> i) & 1 == 1;
                if hit {
                    let v = page * 64 + i;
                    proof {
                        assert(page * 64 + 63 <= u64::MAX);
                        vstd::arithmetic::div_mod::lemma_fundamental_div_mod_converse(v as int, 64, page as int, i as int);
                    }
                    out.push(v);
                }
                proof {
                    let vv = page * 64 + i;
                    assert(page * 64 + 63 <= u64::MAX);
                    vstd::arithmetic::div_mod::lemma_fundamental_div_mod_converse(vv as int, 64, page as int, i as int);
                    if hit {
                        assert(out@ == before.push(vv as u64));
                    } else {
                        assert(out@ == before);
                    }
                    assert(bit64(bits, i as int) == hit);
                    assert forall|w: u64| #[trigger] out@.contains(w) == (out0.contains(w) || (w / 64 == page && w % 64 < i + 1 && bit64(bits, (w % 64) as int))) by {
                        vstd::arithmetic::div_mod::lemma_fundamental_div_mod(w as int, 64);
                        if out0.contains(w) {
                            let idx = choose|idx: int| 0 <= idx < out0.len() && out0[idx] == w;
                            assert(out0[idx] / 64 < page);
                        }
                        if w / 64 == page && w % 64 == i {
                            assert(w == vv);
                        }
                        if w == vv {
                            assert(w / 64 == page && w % 64 == i);
                        }
                    }
                }
                i = i + 1;
            }
            proof {
                assert forall|v: u64| #[trigger] out@.contains(v) == (self.has(v) && exists|t: int| 0 <= t < j + 1 && #[trigger] keys[t] == v / 64) by {
                    if self.has(v) && exists|t: int| 0 <= t < j + 1 && #[trigger] keys[t] == v / 64 {
                        let t = choose|t: int| 0 <= t < j + 1 && #[trigger] keys[t] == v / 64;
                        if t < j {
                            assert(out0.contains(v));
                        } else {
                            assert(v / 64 == page);
                            assert(v % 64 < 64);
                            assert(bit64(bits, (v % 64) as int));
                        }
                    }
                    if out@.contains(v) {
                        if out0.contains(v) {
                            let t = choose|t: int| 0 <= t < j && #[trigger] keys[t] == v / 64;
                            assert(t < j + 1);
                        } else {
                            assert(v / 64 == page && bit64(bits, (v % 64) as int));
                            assert(keys[j as int] == v / 64);
                            assert(self.has(v));
                        }
                    }
                }
            }
            j = j + 1;
        }
        proof {
            assert forall|v: u64| #[trigger] out@.contains(v) == self.has(v) by {
                if self.has(v) {
                    let p = v / 64;
                    assert(s.contains((&p, &self.pages_chirho@[p])));
                    let i = choose|i: int| 0 <= i < s.len() && s[i] == (&p, &self.pages_chirho@[p]);
                    assert(*s[i].0 == p);
                    assert(keys@.contains(p));
                    let t = choose|t: int| 0 <= t < keys.len() && keys@[t] == p;
                    assert(keys[t] == v / 64);
                }
            }
        }
        out
    }

    /// The domain as one word, when every value lies below 64 (`None` otherwise).
    pub fn to_bitvec64_chirho(&self) -> (r: Option<BitVec64Chirho>)
        ensures
            r is Some == self.below_64(),
            r matches Some(b) ==> forall|v: u64| #[trigger] self.has(v) == (v < 64 && bit64(b.0, v as int)),
    {
        proof {
            use_type_invariant(self);
        }
        if self.pages_chirho.len() == 0 {
            proof {
                lemma_zero_iff_no_bits(0);
                vstd::set_lib::lemma_set_empty_equivalency_len(self.pages_chirho@.dom());
                assert forall|v: u64| #[trigger] self.has(v) == (v < 64 && bit64(0u64, v as int)) by {
                    if self.pages_chirho@.contains_key(v / 64) {
                        assert(self.pages_chirho@.dom().contains(v / 64));
                    }
                }
            }
            return Some(BitVec64Chirho::ZERO_CHIRHO());
        }
        if self.pages_chirho.len() == 1 {
            if let Some(bits) = self.pages_chirho.get(&0) {
                proof {
                    assert forall|v: u64| #[trigger] self.has(v) == (v < 64 && bit64(bits.0, v as int)) by {
                        if self.pages_chirho@.contains_key(v / 64) && v / 64 != 0 {
                            assert(self.pages_chirho@.dom().contains(0) && self.pages_chirho@.dom().contains(v / 64));
                            let d = self.pages_chirho@.dom();
                            vstd::set_lib::lemma_set_empty_equivalency_len(d.remove(0));
                            assert(d.remove(0).contains(v / 64));
                        }
                        if v < 64 {
                            assert(v / 64 == 0 && v % 64 == v);
                        }
                    }
                }
                return Some(*bits);
            }
        }
        proof {
            let d = self.pages_chirho@.dom();
            let k: u64 = if d.len() == 1 {
                d.choose()
            } else {
                let a = d.choose();
                vstd::set_lib::lemma_set_empty_equivalency_len(d);
                if a != 0 { a } else {
                    assert(d.remove(0).len() >= 1);
                    vstd::set_lib::lemma_set_empty_equivalency_len(d.remove(0));
                    d.remove(0).choose()
                }
            };
            vstd::set_lib::lemma_set_empty_equivalency_len(d);
            assert(d.contains(k) && k != 0);
            lemma_zero_iff_no_bits(self.pages_chirho@[k].0);
            let i = choose|i: int| bit64(self.pages_chirho@[k].0, i);
            let v = (64 * k + i) as u64;
            assert(64 * k + 63 <= u64::MAX);
            vstd::arithmetic::div_mod::lemma_fundamental_div_mod_converse(v as int, 64, k as int, i);
            assert(self.has(v) && v >= 64);
        }
        None
    }

    /// A second domain with the same pages.
    pub(crate) fn copy_chirho(&self) -> (r: Self)
        ensures
            r.pages() == self.pages(),
    {
        proof {
            use_type_invariant(self);
        }
        Self::from_pages_chirho(self.pages_chirho.clone())
    }

    /// Number of stored pages.
    pub fn page_count_chirho(&self) -> (r: usize)
        ensures
            r == self.pages().len(),
    {
        self.pages_chirho.len()
    }
}

/// Insert `k` into a strictly increasing list that does not hold it yet.
fn insert_sorted_chirho(v: &mut Vec<u64>, k: u64)
    requires
        forall|a: int, b: int| 0 <= a < b < old(v).len() ==> #[trigger] old(v)[a] < #[trigger] old(v)[b],
    ensures
        forall|a: int, b: int| 0 <= a < b < final(v).len() ==> #[trigger] final(v)[a] < #[trigger] final(v)[b],
        forall|x: u64| #[trigger] final(v)@.contains(x) == (old(v)@.contains(x) || x == k),
{
    let mut i: usize = 0;
    while i < v.len() && v[i] < k
        invariant
            i <= v.len(),
            forall|a: int| 0 <= a < i ==> #[trigger] v[a] < k,
        decreases v.len() - i,
    {
        i = i + 1;
    }
    if i < v.len() && v[i] == k {
        return;
    }
    let ghost before = v@;
    v.insert(i, k);
    proof {
        assert forall|a: int, b: int| 0 <= a < b < v.len() implies #[trigger] v[a] < #[trigger] v[b] by {
            if b < i {
            } else if b == i {
            } else if a < i {
                assert(v[b] == before[b - 1]);
                assert(before[b - 1] >= k);
            } else if a == i {
                assert(v[b] == before[b - 1]);
            } else {
                assert(v[a] == before[a - 1] && v[b] == before[b - 1]);
            }
        }
        assert forall|x: u64| #[trigger] v@.contains(x) == (before.contains(x) || x == k) by {
            if before.contains(x) {
                let t = choose|t: int| 0 <= t < before.len() && before[t] == x;
                if t < i {
                    assert(v@[t] == x);
                } else {
                    assert(v@[t + 1] == x);
                }
            }
            if v@.contains(x) {
                let t = choose|t: int| 0 <= t < v@.len() && v@[t] == x;
                if t < i {
                    assert(before[t] == x);
                } else if t > i {
                    assert(before[t - 1] == x);
                }
            }
            if x == k {
                assert(v@[i as int] == k);
            }
        }
    }
}

/// Every set of `u64` values is finite.
proof fn lemma_u64_set_finite(s: Set<u64>)
    ensures
        s.finite(),
{
    let f = |i: int| i as u64;
    let x = vstd::set_lib::set_int_range(0, u64::MAX as int + 1);
    vstd::set_lib::lemma_int_range(0, u64::MAX as int + 1);
    let y = x.map(f);
    vstd::set_lib::lemma_map_size_bound(x, y, f);
    assert forall|v: u64| #[trigger] s.contains(v) implies y.contains(v) by {
        assert(x.contains(v as int) && f(v as int) == v);
    }
    vstd::set_lib::lemma_len_subset(s, y);
}

impl Default for PagedDomainChirho {
    fn default() -> (r: Self)
        ensures
            forall|v: u64| !#[trigger] r.has(v),
    {
        Self::empty_chirho()
    }
}

} // verus!
