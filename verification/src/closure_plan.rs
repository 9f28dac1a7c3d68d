//! Host-side steps of the transitive closure of a packed boolean matrix: the
//! reflexive start (identity added) and the number of squaring rounds.
use vstd::prelude::*;

verus! {

/// Words per row of an `n`-column packed matrix of 32-bit words.
pub open spec fn words_per_row(n: u32) -> int {
    (n as int + 31) / 32
}

/// Word holding the diagonal bit of row `i`.
pub open spec fn diag_word(n: u32, i: int) -> int {
    i * words_per_row(n) + i / 32
}

/// The diagonal bits among rows `0..k` that fall in word `w`.
pub open spec fn diag_mask(n: u32, w: int, k: int) -> u32
    decreases k,
{
    if k <= 0 {
        0
    } else {
        let prev = diag_mask(n, w, k - 1);
        if diag_word(n, k - 1) == w {
            prev | (1u32 << ((k - 1) % 32) as u32)
        } else {
            prev
        }
    }
}

/// The matrix with the identity added: the diagonal bit of every row `i < n`
/// whose word lies within the matrix is set; nothing else changes.
pub fn with_identity_chirho(matrix_chirho: &[u32], n_chirho: u32) -> (r: Vec<u32>)
    requires
        n_chirho as int + 31 <= u32::MAX,
    ensures
        r@.len() == matrix_chirho@.len(),
        forall|w: int| 0 <= w < r@.len() ==> #[trigger] r@[w] == matrix_chirho@[w] | diag_mask(n_chirho, w, n_chirho as int),
{
    let mut acc: Vec<u32> = Vec::new();
    let mut t: usize = 0;
    while t < matrix_chirho.len()
        invariant
            t <= matrix_chirho@.len(),
            acc@ == matrix_chirho@.take(t as int),
        decreases matrix_chirho@.len() - t,
    {
        acc.push(matrix_chirho[t]);
        proof {
            assert(acc@ =~= matrix_chirho@.take(t + 1));
        }
        t = t + 1;
    }
    proof {
        assert(matrix_chirho@.take(t as int) =~= matrix_chirho@);
        assert forall|w: int| 0 <= w < acc@.len() implies #[trigger] acc@[w] == matrix_chirho@[w] | diag_mask(n_chirho, w, 0) by {
            let x = acc@[w];
            assert(x | 0u32 == x) by (bit_vector);
        }
    }
    let wpr: usize = ((n_chirho + 31) / 32) as usize;
    let len = acc.len();
    let mut i: u32 = 0;
    while i < n_chirho
        invariant
            i <= n_chirho,
            n_chirho as int + 31 <= u32::MAX,
            wpr == words_per_row(n_chirho),
            len == acc@.len(),
            acc@.len() == matrix_chirho@.len(),
            forall|w: int| 0 <= w < acc@.len() ==> #[trigger] acc@[w] == matrix_chirho@[w] | diag_mask(n_chirho, w, i as int),
        decreases n_chirho - i,
    {
        let iu: usize = i as usize;
        let bit: u32 = i % 32;
        let word_opt: Option<usize> = match iu.checked_mul(wpr) {
            Some(p) => p.checked_add(iu / 32),
            None => None,
        };
        proof {
            if let Some(word) = word_opt {
                assert(word as int == diag_word(n_chirho, i as int));
            } else {
                assert(diag_word(n_chirho, i as int) > usize::MAX) by (nonlinear_arith)
                    requires
                        iu as int * wpr as int > usize::MAX || iu as int * wpr as int + iu as int / 32 > usize::MAX,
                        diag_word(n_chirho, i as int) == iu as int * wpr as int + iu as int / 32,
                        iu as int >= 0,
                        wpr as int >= 0,
                ;
            }
            assert(bit as int == (i as int) % 32);
        }
        match word_opt {
            Some(word) if word < len => {
                let old_v = acc[word];
                let new_v = old_v | (1u32 << bit);
                acc.set(word, new_v);
                proof {
                    assert forall|w: int| 0 <= w < acc@.len() implies #[trigger] acc@[w] == matrix_chirho@[w] | diag_mask(
                        n_chirho,
                        w,
                        i + 1,
                    ) by {
                        let m = matrix_chirho@[w];
                        let d = diag_mask(n_chirho, w, i as int);
                        if w == word as int {
                            let b = 1u32 << bit;
                            assert((m | d) | b == m | (d | b)) by (bit_vector);
                        }
                    }
                }
            },
            _ => {
                proof {
                    assert forall|w: int| 0 <= w < acc@.len() implies #[trigger] acc@[w] == matrix_chirho@[w] | diag_mask(
                        n_chirho,
                        w,
                        i + 1,
                    ) by {
                        assert(diag_word(n_chirho, i as int) != w);
                    }
                }
            },
        }
        i = i + 1;
    }
    acc
}

/// Number of significant bits of `n`.
pub open spec fn bit_length(n: u32) -> nat
    decreases n,
{
    if n == 0 {
        0
    } else {
        1 + bit_length(n / 2)
    }
}

/// Rounds of squaring that suffice for the closure of an `n`-node graph: one
/// more than the bit length of `n`.
pub fn closure_rounds_chirho(n_chirho: u32) -> (r: usize)
    ensures
        r == bit_length(n_chirho) + 1,
{
    proof {
        assert(twopow(32) == 0x1_0000_0000) by {
            reveal_with_fuel(twopow, 33);
        }
        lemma_bit_length_bound(n_chirho, 32);
    }
    let mut k: u32 = n_chirho;
    let mut c: usize = 1;
    while k > 0
        invariant
            c + bit_length(k) == bit_length(n_chirho) + 1,
            bit_length(n_chirho) <= 32,
        decreases k,
    {
        k = k / 2;
        c = c + 1;
    }
    c
}

/// Two to the power `j`.
pub open spec fn twopow(j: nat) -> int
    decreases j,
{
    if j == 0 {
        1
    } else {
        2 * twopow((j - 1) as nat)
    }
}

proof fn lemma_bit_length_bound(n: u32, j: nat)
    requires
        (n as int) < twopow(j),
    ensures
        bit_length(n) <= j,
    decreases j,
{
    if n > 0 {
        assert(j > 0);
        lemma_bit_length_bound(n / 2, (j - 1) as nat);
    }
}

} // verus!
