//! Hardware-style search states over bit-vector domains, a content-addressable
//! memory of relation facts and a parallel unification unit.

use vstd::prelude::*;
use vstd::std_specs::bits::u64_trailing_zeros;
use crate::bits::{bit64, lemma_or_bits, lemma_shl_bits, lemma_zero_iff_no_bits};
use crate::hardware::{
    BitVec64Chirho, BitVec256Chirho, is_single64, is_zero256, popcount256, bit256, lowest256,
    clear_lowest256,
};

verus! {

/// Search state with `N` variables, each with a 64-value domain.
#[derive(Debug, Clone, Copy)]
pub struct SearchStateHwChirho<const N: usize> {
    /// Domain of each variable.
    pub domains_chirho: [BitVec64Chirho; N],
    /// False once some domain became empty.
    pub valid_chirho: bool,
}

impl<const N: usize> SearchStateHwChirho<N> {
    /// Every variable may take every value.
    pub fn new_chirho() -> (r: Self)
        ensures
            r.valid_chirho,
            forall|i: int| 0 <= i < N ==> #[trigger] r.domains_chirho[i].0 == u64::MAX,
    {
        Self { domains_chirho: [BitVec64Chirho(u64::MAX); N], valid_chirho: true }
    }

    /// Unify two variables: both get the intersection of their domains.
    pub fn unify_chirho(&mut self, var1_chirho: usize, var2_chirho: usize)
        ensures
            var1_chirho < N && var2_chirho < N ==> {
                let inter = BitVec64Chirho(
                    old(self).domains_chirho[var1_chirho as int].0 & old(
                        self,
                    ).domains_chirho[var2_chirho as int].0,
                );
                &&& final(self).domains_chirho@ == old(self).domains_chirho@.update(
                    var1_chirho as int,
                    inter,
                ).update(var2_chirho as int, inter)
                &&& final(self).valid_chirho == (old(self).valid_chirho && inter.0 != 0)
            },
            !(var1_chirho < N && var2_chirho < N) ==> *final(self) == *old(self),
    {
        if var1_chirho < N && var2_chirho < N {
            let intersection_chirho = self.domains_chirho[var1_chirho].and_chirho(
                self.domains_chirho[var2_chirho],
            );
            self.domains_chirho[var1_chirho] = intersection_chirho;
            self.domains_chirho[var2_chirho] = intersection_chirho;
            if intersection_chirho.is_zero_chirho() {
                self.valid_chirho = false;
            }
        }
    }

    /// Restrict a variable to a single value.
    pub fn constrain_chirho(&mut self, var_chirho: usize, val_chirho: u32)
        ensures
            var_chirho < N && val_chirho < 64 ==> {
                let d = BitVec64Chirho(
                    old(self).domains_chirho[var_chirho as int].0 & (1u64 << val_chirho),
                );
                &&& final(self).domains_chirho@ == old(self).domains_chirho@.update(
                    var_chirho as int,
                    d,
                )
                &&& final(self).valid_chirho == (old(self).valid_chirho && d.0 != 0)
            },
            !(var_chirho < N && val_chirho < 64) ==> *final(self) == *old(self),
    {
        if var_chirho < N && val_chirho < 64 {
            let mask_chirho = BitVec64Chirho(1u64 << val_chirho);
            self.domains_chirho[var_chirho] = self.domains_chirho[var_chirho].and_chirho(
                mask_chirho,
            );
            if self.domains_chirho[var_chirho].is_zero_chirho() {
                self.valid_chirho = false;
            }
        }
    }

    /// Replace a variable's domain.
    pub fn set_domain_chirho(&mut self, var_chirho: usize, domain_chirho: BitVec64Chirho)
        ensures
            var_chirho < N ==> final(self).domains_chirho@ == old(self).domains_chirho@.update(
                var_chirho as int,
                domain_chirho,
            ) && final(self).valid_chirho == (old(self).valid_chirho && domain_chirho.0 != 0),
            var_chirho >= N ==> *final(self) == *old(self),
    {
        if var_chirho < N {
            self.domains_chirho[var_chirho] = domain_chirho;
            if domain_chirho.is_zero_chirho() {
                self.valid_chirho = false;
            }
        }
    }

    /// Valid and every variable bound to one value.
    pub fn is_solved_chirho(&self) -> (r: bool)
        ensures
            r == (self.valid_chirho && forall|i: int|
                0 <= i < N ==> #[trigger] is_single64(self.domains_chirho[i].0)),
    {
        if !self.valid_chirho {
            return false;
        }
        let mut i: usize = 0;
        while i < N
            invariant
                i <= N,
                forall|j: int| 0 <= j < i ==> #[trigger] is_single64(self.domains_chirho[j].0),
            decreases N - i,
        {
            if !self.domains_chirho[i].is_singleton_chirho() {
                return false;
            }
            i = i + 1;
        }
        true
    }

    /// The value of a bound variable.
    pub fn get_value_chirho(&self, var_chirho: usize) -> (r: Option<u32>)
        ensures
            r == (if var_chirho < N && is_single64(self.domains_chirho[var_chirho as int].0) {
                Some(u64_trailing_zeros(self.domains_chirho[var_chirho as int].0))
            } else {
                None
            }),
    {
        if var_chirho < N && self.domains_chirho[var_chirho].is_singleton_chirho() {
            Some(self.domains_chirho[var_chirho].ctz_chirho())
        } else {
            None
        }
    }

    /// Split on one value of a variable: (variable takes it, variable avoids it).
    pub fn fork_on_bit_chirho(&self, var_chirho: usize, bit_chirho: u32) -> (r: (Self, Self))
        ensures
            var_chirho < N && bit_chirho < 64 ==> {
                let d = self.domains_chirho[var_chirho as int].0;
                let w = BitVec64Chirho(d & (1u64 << bit_chirho));
                let wo = BitVec64Chirho(d & !(1u64 << bit_chirho));
                &&& r.0.domains_chirho@ == self.domains_chirho@.update(var_chirho as int, w)
                &&& r.1.domains_chirho@ == self.domains_chirho@.update(var_chirho as int, wo)
                &&& r.0.valid_chirho == (w.0 != 0)
                &&& r.1.valid_chirho == (wo.0 != 0)
            },
            !(var_chirho < N && bit_chirho < 64) ==> r.0 == *self && r.1 == *self,
    {
        let mut with_chirho = *self;
        let mut without_chirho = *self;
        if var_chirho < N && bit_chirho < 64 {
            let bit_mask_chirho = BitVec64Chirho(1u64 << bit_chirho);
            with_chirho.domains_chirho[var_chirho] = self.domains_chirho[var_chirho].and_chirho(
                bit_mask_chirho,
            );
            without_chirho.domains_chirho[var_chirho] = self.domains_chirho[var_chirho].and_chirho(
                bit_mask_chirho.not_chirho(),
            );
            with_chirho.valid_chirho = !with_chirho.domains_chirho[var_chirho].is_zero_chirho();
            without_chirho.valid_chirho = !without_chirho.domains_chirho[var_chirho].is_zero_chirho();
        }
        (with_chirho, without_chirho)
    }
}

/// Search state with `N` variables, each with a 256-value domain.
#[derive(Debug, Clone, Copy)]
pub struct SearchState256HwChirho<const N: usize> {
    /// Domain of each variable.
    pub domains_chirho: [BitVec256Chirho; N],
    /// False once some domain became empty.
    pub valid_chirho: bool,
}

impl<const N: usize> SearchState256HwChirho<N> {
    /// Every variable may take every value.
    pub fn new_chirho() -> (r: Self)
        ensures
            r.valid_chirho,
            forall|i: int, k: int|
                0 <= i < N && 0 <= k < 4 ==> #[trigger] r.domains_chirho[i].0[k] == u64::MAX,
    {
        let ones = BitVec256Chirho::ONES_CHIRHO();
        Self { domains_chirho: [ones; N], valid_chirho: true }
    }

    /// Unify two variables: both get the intersection of their domains.
    pub fn unify_chirho(&mut self, var1_chirho: usize, var2_chirho: usize)
        ensures
            var1_chirho < N && var2_chirho < N ==> {
                let a = old(self).domains_chirho[var1_chirho as int].0;
                let b = old(self).domains_chirho[var2_chirho as int].0;
                let inter = final(self).domains_chirho[var1_chirho as int];
                &&& forall|k: int| 0 <= k < 4 ==> #[trigger] inter.0[k] == a[k] & b[k]
                &&& final(self).domains_chirho@ == old(self).domains_chirho@.update(
                    var1_chirho as int,
                    inter,
                ).update(var2_chirho as int, inter)
                &&& final(self).valid_chirho == (old(self).valid_chirho && !is_zero256(inter.0))
            },
            !(var1_chirho < N && var2_chirho < N) ==> *final(self) == *old(self),
    {
        if var1_chirho < N && var2_chirho < N {
            let intersection_chirho = self.domains_chirho[var1_chirho].and_chirho(
                self.domains_chirho[var2_chirho],
            );
            self.domains_chirho[var1_chirho] = intersection_chirho;
            self.domains_chirho[var2_chirho] = intersection_chirho;
            if intersection_chirho.is_zero_chirho() {
                self.valid_chirho = false;
            }
        }
    }

    /// Restrict a variable to a single value (0-255).
    pub fn constrain_chirho(&mut self, var_chirho: usize, val_chirho: u32)
        ensures
            var_chirho < N && val_chirho < 256 ==> {
                let d = final(self).domains_chirho[var_chirho as int];
                &&& forall|i: int|
                    #![trigger bit256(d.0, i)]
                    bit256(d.0, i) == (i == val_chirho && bit256(
                        old(self).domains_chirho[var_chirho as int].0,
                        i,
                    ))
                &&& final(self).domains_chirho@ == old(self).domains_chirho@.update(
                    var_chirho as int,
                    d,
                )
                &&& final(self).valid_chirho == (old(self).valid_chirho && !is_zero256(d.0))
            },
            !(var_chirho < N && val_chirho < 256) ==> *final(self) == *old(self),
    {
        if var_chirho < N && val_chirho < 256 {
            let mask_chirho = BitVec256Chirho::ZERO_CHIRHO().set_bit_chirho(val_chirho);
            let old_d = self.domains_chirho[var_chirho];
            let new_d = old_d.and_chirho(mask_chirho);
            proof {
                let w = (val_chirho / 64) as int;
                let b = (val_chirho % 64) as u64;
                assert forall|i: int| #![trigger bit256(new_d.0, i)]
                    bit256(new_d.0, i) == (i == val_chirho && bit256(old_d.0, i)) by {
                    if 0 <= i < 256 {
                        let k = i / 64;
                        crate::bits::lemma_and_bits(old_d.0[k], mask_chirho.0[k], i % 64);
                        if k == w {
                            lemma_or_bits(0u64, 1u64 << b, i % 64);
                            lemma_shl_bits(b, i % 64);
                            lemma_zero_iff_no_bits(0u64);
                        } else {
                            lemma_zero_iff_no_bits(0u64);
                        }
                    }
                }
            }
            self.domains_chirho[var_chirho] = new_d;
            if self.domains_chirho[var_chirho].is_zero_chirho() {
                self.valid_chirho = false;
            }
        }
    }

    /// Replace a variable's domain.
    pub fn set_domain_chirho(&mut self, var_chirho: usize, domain_chirho: BitVec256Chirho)
        ensures
            var_chirho < N ==> final(self).domains_chirho@ == old(self).domains_chirho@.update(
                var_chirho as int,
                domain_chirho,
            ) && final(self).valid_chirho == (old(self).valid_chirho && !is_zero256(
                domain_chirho.0,
            )),
            var_chirho >= N ==> *final(self) == *old(self),
    {
        if var_chirho < N {
            self.domains_chirho[var_chirho] = domain_chirho;
            if domain_chirho.is_zero_chirho() {
                self.valid_chirho = false;
            }
        }
    }

    /// Valid and every variable bound to one value.
    pub fn is_solved_chirho(&self) -> (r: bool)
        ensures
            r == (self.valid_chirho && forall|i: int|
                0 <= i < N ==> #[trigger] popcount256(self.domains_chirho[i].0) == 1),
    {
        if !self.valid_chirho {
            return false;
        }
        let mut i: usize = 0;
        while i < N
            invariant
                i <= N,
                forall|j: int| 0 <= j < i ==> #[trigger] popcount256(self.domains_chirho[j].0) == 1,
            decreases N - i,
        {
            if !self.domains_chirho[i].is_singleton_chirho() {
                return false;
            }
            i = i + 1;
        }
        true
    }

    /// The value of a bound variable.
    pub fn get_value_chirho(&self, var_chirho: usize) -> (r: Option<u32>)
        ensures
            (r is Some) == (var_chirho < N && popcount256(self.domains_chirho[var_chirho as int].0)
                == 1),
            r matches Some(v) ==> v < 256 && bit256(self.domains_chirho[var_chirho as int].0, v as int)
                && forall|j: int|
                0 <= j < v ==> !bit256(self.domains_chirho[var_chirho as int].0, j),
    {
        if var_chirho < N && self.domains_chirho[var_chirho].is_singleton_chirho() {
            let v = self.domains_chirho[var_chirho].find_first_chirho();
            if v == 256 {
                proof {
                    crate::bits::lemma_popcount64_zero();
                }
                assert(false);
            }
            Some(v)
        } else {
            None
        }
    }

    /// Split on the lowest value of a variable: (takes it, avoids it).
    pub fn fork_lowest_chirho(&self, var_chirho: usize) -> (r: (Self, Self))
        ensures
            var_chirho < N ==> {
                let d = self.domains_chirho[var_chirho as int].0;
                &&& r.0.domains_chirho[var_chirho as int].0 == lowest256(d)
                &&& r.1.domains_chirho[var_chirho as int].0 == clear_lowest256(d)
                &&& r.0.domains_chirho@ == self.domains_chirho@.update(
                    var_chirho as int,
                    r.0.domains_chirho[var_chirho as int],
                )
                &&& r.1.domains_chirho@ == self.domains_chirho@.update(
                    var_chirho as int,
                    r.1.domains_chirho[var_chirho as int],
                )
                &&& r.0.valid_chirho == !is_zero256(lowest256(d))
                &&& r.1.valid_chirho == !is_zero256(clear_lowest256(d))
            },
            var_chirho >= N ==> r.0 == *self && r.1 == *self,
    {
        let mut with_chirho = *self;
        let mut without_chirho = *self;
        if var_chirho < N {
            let lowest_chirho = self.domains_chirho[var_chirho].lowest_bit_chirho();
            let rest_chirho = self.domains_chirho[var_chirho].clear_lowest_chirho();
            with_chirho.domains_chirho[var_chirho] = lowest_chirho;
            without_chirho.domains_chirho[var_chirho] = rest_chirho;
            with_chirho.valid_chirho = !lowest_chirho.is_zero_chirho();
            without_chirho.valid_chirho = !rest_chirho.is_zero_chirho();
        }
        (with_chirho, without_chirho)
    }
}


/// One entry of a content-addressable memory.
#[derive(Debug, Clone, Copy)]
pub struct CamEntryChirho {
    pub key_chirho: u32,
    pub value_chirho: u32,
    pub valid_chirho: bool,
}

impl Default for CamEntryChirho {
    fn default() -> (r: Self)
        ensures
            r.key_chirho == 0 && r.value_chirho == 0 && !r.valid_chirho,
    {
        CamEntryChirho { key_chirho: 0, value_chirho: 0, valid_chirho: false }
    }
}

/// Content-addressable memory holding up to `SIZE` (key, value) facts.
#[derive(Debug)]
pub struct CamHwChirho<const SIZE: usize> {
    entries_chirho: [CamEntryChirho; SIZE],
    count_chirho: usize,
}

/// Some fact of `facts` has this key and value.
pub open spec fn cam_has(facts: Seq<(u32, u32)>, key: u32, value: int) -> bool {
    exists|i: int| 0 <= i < facts.len() && facts[i].0 == key && facts[i].1 == value
}

/// Some fact of `facts` has a key in `mask` and this value.
pub open spec fn cam_has_masked(facts: Seq<(u32, u32)>, mask: u64, value: int) -> bool {
    exists|i: int|
        0 <= i < facts.len() && facts[i].0 < 64 && bit64(mask, facts[i].0 as int) && facts[i].1
            == value
}

impl<const SIZE: usize> Clone for CamHwChirho<SIZE> {
    fn clone(&self) -> (r: Self)
        ensures
            r.facts() == self.facts(),
    {
        proof {
            use_type_invariant(self);
        }
        CamHwChirho { entries_chirho: self.entries_chirho, count_chirho: self.count_chirho }
    }
}

impl<const SIZE: usize> CamHwChirho<SIZE> {
    #[verifier::type_invariant]
    spec fn inv(self) -> bool {
        &&& self.count_chirho <= SIZE
        &&& forall|i: int| 0 <= i < SIZE ==> (#[trigger] self.entries_chirho[i].valid_chirho
            <==> i < self.count_chirho)
    }

    /// The facts stored so far, in insertion order.
    pub closed spec fn facts(self) -> Seq<(u32, u32)> {
        Seq::new(
            self.count_chirho as nat,
            |i: int| (self.entries_chirho[i].key_chirho, self.entries_chirho[i].value_chirho),
        )
    }

    /// An empty memory.
    pub fn new_chirho() -> (r: Self)
        ensures
            r.facts() == Seq::<(u32, u32)>::empty(),
    {
        let e = CamEntryChirho { key_chirho: 0, value_chirho: 0, valid_chirho: false };
        let r = Self { entries_chirho: [e; SIZE], count_chirho: 0 };
        assert(r.facts() =~= Seq::<(u32, u32)>::empty());
        r
    }

    /// Store a fact; refused (false) when the memory is full.
    pub fn insert_chirho(&mut self, key_chirho: u32, value_chirho: u32) -> (r: bool)
        ensures
            r == (old(self).facts().len() < SIZE),
            r ==> final(self).facts() == old(self).facts().push((key_chirho, value_chirho)),
            !r ==> final(self).facts() == old(self).facts(),
    {
        proof {
            use_type_invariant(&*self);
        }
        if self.count_chirho < SIZE {
            let c = self.count_chirho;
            let ghost old_facts = self.facts();
            let mut entries = self.entries_chirho;
            entries[c] = CamEntryChirho { key_chirho, value_chirho, valid_chirho: true };
            *self = CamHwChirho { entries_chirho: entries, count_chirho: c + 1 };
            assert(self.facts() =~= old_facts.push((key_chirho, value_chirho)));
            true
        } else {
            false
        }
    }

    /// All values stored under `key_chirho` (values of 64 and above are not representable).
    pub fn lookup_chirho(&self, key_chirho: u32) -> (r: BitVec64Chirho)
        ensures
            forall|v: int| #[trigger] bit64(r.0, v) == (0 <= v < 64 && cam_has(self.facts(), key_chirho, v)),
    {
        proof {
            use_type_invariant(self);
        }
        let mut result_chirho: u64 = 0;
        let mut i: usize = 0;
        proof {
            lemma_zero_iff_no_bits(0u64);
        }
        while i < SIZE
            invariant
                i <= SIZE,
                self.count_chirho <= SIZE,
                forall|j: int| 0 <= j < SIZE ==> (#[trigger] self.entries_chirho[j].valid_chirho
                    <==> j < self.count_chirho),
                forall|v: int|
                    #[trigger] bit64(result_chirho, v) == (0 <= v < 64 && exists|j: int|
                        0 <= j < i && j < self.count_chirho && self.entries_chirho[j].key_chirho
                            == key_chirho && self.entries_chirho[j].value_chirho == v),
            decreases SIZE - i,
        {
            let e = self.entries_chirho[i];
            let ghost prev = result_chirho;
            if e.valid_chirho && e.key_chirho == key_chirho && e.value_chirho < 64 {
                result_chirho = result_chirho | (1u64 << e.value_chirho);
                proof {
                    assert forall|v: int| #[trigger] bit64(result_chirho, v) == (0 <= v < 64 && exists|j: int|
                        0 <= j < i + 1 && j < self.count_chirho && self.entries_chirho[j].key_chirho
                            == key_chirho && self.entries_chirho[j].value_chirho == v) by {
                        lemma_or_bits(prev, 1u64 << e.value_chirho, v);
                        lemma_shl_bits(e.value_chirho as u64, v);
                        if v == e.value_chirho {
                            assert(self.entries_chirho[i as int].value_chirho == v);
                        }
                    }
                }
            } else {
                proof {
                    assert forall|v: int| #[trigger] bit64(result_chirho, v) == (0 <= v < 64 && exists|j: int|
                        0 <= j < i + 1 && j < self.count_chirho && self.entries_chirho[j].key_chirho
                            == key_chirho && self.entries_chirho[j].value_chirho == v) by {
                        if bit64(result_chirho, v) {
                        } else if 0 <= v < 64 && exists|j: int|
                            0 <= j < i + 1 && j < self.count_chirho && self.entries_chirho[j].key_chirho
                                == key_chirho && self.entries_chirho[j].value_chirho == v {
                            let j = choose|j: int|
                                0 <= j < i + 1 && j < self.count_chirho && self.entries_chirho[j].key_chirho
                                    == key_chirho && self.entries_chirho[j].value_chirho == v;
                            assert(j != i);
                        }
                    }
                }
            }
            i = i + 1;
        }
        proof {
            assert forall|v: int| #[trigger] bit64(result_chirho, v) == (0 <= v < 64 && cam_has(self.facts(), key_chirho, v)) by {
                if 0 <= v < 64 && cam_has(self.facts(), key_chirho, v) {
                    let j = choose|j: int| 0 <= j < self.facts().len() && self.facts()[j].0 == key_chirho && self.facts()[j].1 == v;
                    assert(self.entries_chirho[j].key_chirho == key_chirho);
                }
                if bit64(result_chirho, v) {
                    let j = choose|j: int|
                        0 <= j < SIZE && j < self.count_chirho && self.entries_chirho[j].key_chirho
                            == key_chirho && self.entries_chirho[j].value_chirho == v;
                    assert(self.facts()[j].0 == key_chirho);
                }
            }
        }
        BitVec64Chirho(result_chirho)
    }

    /// All values stored under any key in `key_mask_chirho`.
    pub fn lookup_masked_chirho(&self, key_mask_chirho: BitVec64Chirho) -> (r: BitVec64Chirho)
        ensures
            forall|v: int| #[trigger] bit64(r.0, v) == (0 <= v < 64 && cam_has_masked(self.facts(), key_mask_chirho.0, v)),
    {
        proof {
            use_type_invariant(self);
        }
        let mut result_chirho: u64 = 0;
        let mut i: usize = 0;
        proof {
            lemma_zero_iff_no_bits(0u64);
        }
        while i < SIZE
            invariant
                i <= SIZE,
                self.count_chirho <= SIZE,
                forall|j: int| 0 <= j < SIZE ==> (#[trigger] self.entries_chirho[j].valid_chirho
                    <==> j < self.count_chirho),
                forall|v: int|
                    #[trigger] bit64(result_chirho, v) == (0 <= v < 64 && exists|j: int|
                        0 <= j < i && j < self.count_chirho && self.entries_chirho[j].key_chirho < 64
                            && bit64(key_mask_chirho.0, self.entries_chirho[j].key_chirho as int)
                            && self.entries_chirho[j].value_chirho == v),
            decreases SIZE - i,
        {
            let e = self.entries_chirho[i];
            let ghost prev = result_chirho;
            if e.valid_chirho && e.key_chirho < 64 && key_mask_chirho.test_bit_chirho(e.key_chirho)
                && e.value_chirho < 64 {
                result_chirho = result_chirho | (1u64 << e.value_chirho);
                proof {
                    assert forall|v: int| #[trigger] bit64(result_chirho, v) == (0 <= v < 64 && exists|j: int|
                        0 <= j < i + 1 && j < self.count_chirho && self.entries_chirho[j].key_chirho < 64
                            && bit64(key_mask_chirho.0, self.entries_chirho[j].key_chirho as int)
                            && self.entries_chirho[j].value_chirho == v) by {
                        lemma_or_bits(prev, 1u64 << e.value_chirho, v);
                        lemma_shl_bits(e.value_chirho as u64, v);
                        if v == e.value_chirho {
                            assert(self.entries_chirho[i as int].value_chirho == v);
                        }
                    }
                }
            } else {
                proof {
                    assert forall|v: int| #[trigger] bit64(result_chirho, v) == (0 <= v < 64 && exists|j: int|
                        0 <= j < i + 1 && j < self.count_chirho && self.entries_chirho[j].key_chirho < 64
                            && bit64(key_mask_chirho.0, self.entries_chirho[j].key_chirho as int)
                            && self.entries_chirho[j].value_chirho == v) by {
                        if bit64(result_chirho, v) {
                        } else if 0 <= v < 64 && exists|j: int|
                            0 <= j < i + 1 && j < self.count_chirho && self.entries_chirho[j].key_chirho < 64
                                && bit64(key_mask_chirho.0, self.entries_chirho[j].key_chirho as int)
                                && self.entries_chirho[j].value_chirho == v {
                            let j = choose|j: int|
                                0 <= j < i + 1 && j < self.count_chirho && self.entries_chirho[j].key_chirho < 64
                                    && bit64(key_mask_chirho.0, self.entries_chirho[j].key_chirho as int)
                                    && self.entries_chirho[j].value_chirho == v;
                            assert(j != i);
                        }
                    }
                }
            }
            i = i + 1;
        }
        proof {
            assert forall|v: int| #[trigger] bit64(result_chirho, v) == (0 <= v < 64 && cam_has_masked(self.facts(), key_mask_chirho.0, v)) by {
                if 0 <= v < 64 && cam_has_masked(self.facts(), key_mask_chirho.0, v) {
                    let j = choose|j: int| 0 <= j < self.facts().len() && self.facts()[j].0 < 64 && bit64(key_mask_chirho.0, self.facts()[j].0 as int) && self.facts()[j].1 == v;
                    assert(self.entries_chirho[j].key_chirho == self.facts()[j].0);
                }
                if bit64(result_chirho, v) {
                    let j = choose|j: int|
                        0 <= j < SIZE && j < self.count_chirho && self.entries_chirho[j].key_chirho < 64
                            && bit64(key_mask_chirho.0, self.entries_chirho[j].key_chirho as int)
                            && self.entries_chirho[j].value_chirho == v;
                    assert(self.facts()[j].0 == self.entries_chirho[j].key_chirho);
                }
            }
        }
        BitVec64Chirho(result_chirho)
    }
}

/// Applying equality constraints one after the other: the domains that
/// result, and whether every step left a non-empty domain.  Constraints that
/// name a variable out of range fail.
pub open spec fn run_eqs<const NVARS: usize>(
    d: Seq<BitVec64Chirho>,
    cs: Seq<(usize, usize)>,
) -> (Seq<BitVec64Chirho>, bool)
    decreases cs.len(),
{
    if cs.len() == 0 {
        (d, true)
    } else {
        let (v1, v2) = cs[0];
        if v1 < NVARS && v2 < NVARS {
            let u = BitVec64Chirho(d[v1 as int].0 & d[v2 as int].0);
            let d2 = d.update(v1 as int, u).update(v2 as int, u);
            if u.0 == 0 {
                (d2, false)
            } else {
                run_eqs::<NVARS>(d2, cs.drop_first())
            }
        } else {
            (d, false)
        }
    }
}

/// Parallel unification unit over `NVARS` variables.
#[derive(Debug, Clone, Copy)]
pub struct UnifyUnitHwChirho<const NVARS: usize> {
    /// Domain of each variable.
    pub domains_chirho: [BitVec64Chirho; NVARS],
}

impl<const NVARS: usize> UnifyUnitHwChirho<NVARS> {
    /// Every variable may take every value.
    pub fn new_chirho() -> (r: Self)
        ensures
            forall|i: int| 0 <= i < NVARS ==> #[trigger] r.domains_chirho[i].0 == u64::MAX,
    {
        Self { domains_chirho: [BitVec64Chirho(u64::MAX); NVARS] }
    }

    /// Apply `v1 == v2`; false when a variable is out of range or the domain becomes empty.
    pub fn apply_eq_chirho(&mut self, v1_chirho: usize, v2_chirho: usize) -> (r: bool)
        ensures
            v1_chirho < NVARS && v2_chirho < NVARS ==> {
                let u = BitVec64Chirho(
                    old(self).domains_chirho[v1_chirho as int].0 & old(
                        self,
                    ).domains_chirho[v2_chirho as int].0,
                );
                &&& final(self).domains_chirho@ == old(self).domains_chirho@.update(
                    v1_chirho as int,
                    u,
                ).update(v2_chirho as int, u)
                &&& r == (u.0 != 0)
            },
            !(v1_chirho < NVARS && v2_chirho < NVARS) ==> !r && final(self).domains_chirho@ == old(
                self,
            ).domains_chirho@,
    {
        if v1_chirho < NVARS && v2_chirho < NVARS {
            let unified_chirho = self.domains_chirho[v1_chirho].and_chirho(
                self.domains_chirho[v2_chirho],
            );
            self.domains_chirho[v1_chirho] = unified_chirho;
            self.domains_chirho[v2_chirho] = unified_chirho;
            !unified_chirho.is_zero_chirho()
        } else {
            false
        }
    }

    /// Apply the constraints in order, stopping at the first failure.
    pub fn apply_constraints_chirho(&mut self, constraints_chirho: &[(usize, usize)]) -> (r: bool)
        ensures
            (final(self).domains_chirho@, r) == run_eqs::<NVARS>(
                old(self).domains_chirho@,
                constraints_chirho@,
            ),
    {
        let mut i: usize = 0;
        assert(constraints_chirho@.skip(0) =~= constraints_chirho@);
        while i < constraints_chirho.len()
            invariant
                i <= constraints_chirho.len(),
                run_eqs::<NVARS>(self.domains_chirho@, constraints_chirho@.skip(i as int))
                    == run_eqs::<NVARS>(old(self).domains_chirho@, constraints_chirho@),
            decreases constraints_chirho.len() - i,
        {
            let (v1_chirho, v2_chirho) = constraints_chirho[i];
            let ghost rest = constraints_chirho@.skip(i as int);
            assert(rest.drop_first() =~= constraints_chirho@.skip(i + 1));
            assert(rest[0] == (v1_chirho, v2_chirho));
            if !self.apply_eq_chirho(v1_chirho, v2_chirho) {
                return false;
            }
            i = i + 1;
        }
        assert(constraints_chirho@.skip(i as int) =~= Seq::<(usize, usize)>::empty());
        true
    }
}

} // verus!
