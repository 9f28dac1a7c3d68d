//! Tensor-network contraction orders: a greedy pairing that always contracts
//! the pair with the cheapest result, and a min-degree elimination order of
//! the shared indices.

use vstd::prelude::*;

verus! {

/// A tensor of the network: its name, its distinct index names and its size.
#[derive(Debug)]
pub struct TensorNodeChirho {
    pub name_chirho: String,
    pub indices_chirho: Vec<String>,
    pub size_chirho: usize,
}

/// A tensor network: the tensors and the sizes given to index names.
#[derive(Debug)]
pub struct TensorNetworkChirho {
    pub tensors_chirho: Vec<TensorNodeChirho>,
    pub index_sizes_chirho: Vec<(String, usize)>,
}

/// One contraction: two tensors into a result, and its cost.
#[derive(Debug)]
pub struct ContractionStepChirho {
    pub tensor1_chirho: String,
    pub tensor2_chirho: String,
    pub result_chirho: String,
    pub cost_chirho: usize,
}

/// The texts of a list of strings.
pub open spec fn strs(v: Seq<String>) -> Seq<Seq<char>> {
    v.map_values(|s: String| s@)
}

/// A tensor as (name, index names, size).
pub open spec fn node_m(t: TensorNodeChirho) -> (Seq<char>, Seq<Seq<char>>, int) {
    (t.name_chirho@, strs(t.indices_chirho@), t.size_chirho as int)
}

/// The tensors as (name, index names, size).
pub open spec fn nodes_m(v: Seq<TensorNodeChirho>) -> Seq<(Seq<char>, Seq<Seq<char>>, int)> {
    v.map_values(|t: TensorNodeChirho| node_m(t))
}

/// The index sizes as (name, size).
pub open spec fn sizes_m(v: Seq<(String, usize)>) -> Seq<(Seq<char>, int)> {
    v.map_values(|p: (String, usize)| (p.0@, p.1 as int))
}

/// A step as (first tensor, second tensor, result, cost).
pub open spec fn step_m(s: ContractionStepChirho) -> (Seq<char>, Seq<char>, Seq<char>, int) {
    (s.tensor1_chirho@, s.tensor2_chirho@, s.result_chirho@, s.cost_chirho as int)
}

/// The steps as (first tensor, second tensor, result, cost).
pub open spec fn steps_m(v: Seq<ContractionStepChirho>) -> Seq<(Seq<char>, Seq<char>, Seq<char>, int)> {
    v.map_values(|s: ContractionStepChirho| step_m(s))
}

/// Size of an index: the first size given to its name, 10 when none is.
pub open spec fn lookup(sizes: Seq<(Seq<char>, int)>, key: Seq<char>) -> int
    decreases sizes.len(),
{
    if sizes.len() == 0 {
        10
    } else if sizes[0].0 == key {
        sizes[0].1
    } else {
        lookup(sizes.drop_first(), key)
    }
}

/// The members of `a` that `b` lacks, in order.
pub open spec fn without(a: Seq<Seq<char>>, b: Seq<Seq<char>>) -> Seq<Seq<char>>
    decreases a.len(),
{
    if a.len() == 0 {
        a
    } else if b.contains(a.last()) {
        without(a.drop_last(), b)
    } else {
        without(a.drop_last(), b).push(a.last())
    }
}

/// The two index lists have a name in common.
pub open spec fn shares(a: Seq<Seq<char>>, b: Seq<Seq<char>>) -> bool {
    exists|k: int| 0 <= k < a.len() && b.contains(#[trigger] a[k])
}

/// The indices of a contraction result: those of exactly one side.
pub open spec fn sym_diff(a: Seq<Seq<char>>, b: Seq<Seq<char>>) -> Seq<Seq<char>> {
    without(a, b) + without(b, a)
}

/// The indices of both sides.
pub open spec fn union_idx(a: Seq<Seq<char>>, b: Seq<Seq<char>>) -> Seq<Seq<char>> {
    a + without(b, a)
}

/// Product of the sizes of the indices.
pub open spec fn product(s: Seq<Seq<char>>, sizes: Seq<(Seq<char>, int)>) -> int
    decreases s.len(),
{
    if s.len() == 0 {
        1
    } else {
        product(s.drop_last(), sizes) * lookup(sizes, s.last())
    }
}

/// Every partial product, taken from the front, fits in a `usize`.
pub open spec fn prefix_fits(s: Seq<Seq<char>>, sizes: Seq<(Seq<char>, int)>) -> bool {
    forall|m: int| 0 <= m <= s.len() ==> #[trigger] product(s.take(m), sizes) <= usize::MAX
}

/// The decimal digit `d`.
pub open spec fn digit_char(d: nat) -> char {
    if d == 0 { '0' } else if d == 1 { '1' } else if d == 2 { '2' } else if d == 3 { '3' } else if d == 4 { '4' }
    else if d == 5 { '5' } else if d == 6 { '6' } else if d == 7 { '7' } else if d == 8 { '8' } else { '9' }
}

/// Decimal notation of `n`.
pub open spec fn decimal(n: nat) -> Seq<char>
    decreases n,
{
    if n < 10 {
        seq![digit_char(n)]
    } else {
        decimal(n / 10).push(digit_char(n % 10))
    }
}

/// Name of the result of step `k`: `R` and `k` in decimal.
pub open spec fn r_name(k: nat) -> Seq<char> {
    seq!['R'] + decimal(k)
}

fn digit_str_chirho(d: usize) -> (r: &'static str)
    requires
        d < 10,
    ensures
        r@ == seq![digit_char(d as nat)],
{
    proof {
        reveal_strlit("0");
        reveal_strlit("1");
        reveal_strlit("2");
        reveal_strlit("3");
        reveal_strlit("4");
        reveal_strlit("5");
        reveal_strlit("6");
        reveal_strlit("7");
        reveal_strlit("8");
        reveal_strlit("9");
    }
    if d == 0 { "0" } else if d == 1 { "1" } else if d == 2 { "2" } else if d == 3 { "3" } else if d == 4 { "4" }
    else if d == 5 { "5" } else if d == 6 { "6" } else if d == 7 { "7" } else if d == 8 { "8" } else { "9" }
}

fn push_decimal_chirho(s: &mut String, n: usize)
    ensures
        final(s)@ == old(s)@ + decimal(n as nat),
    decreases n,
{
    if n >= 10 {
        push_decimal_chirho(s, n / 10);
        s.append(digit_str_chirho(n % 10));
        proof {
            assert(final(s)@ =~= old(s)@ + decimal(n as nat)) by {
                assert(decimal(n as nat) == decimal((n / 10) as nat).push(digit_char((n % 10) as nat)));
            }
        }
    } else {
        s.append(digit_str_chirho(n));
    }
}

/// The name `R` followed by `k` in decimal.
fn result_name_chirho(k: usize) -> (r: String)
    ensures
        r@ == r_name(k as nat),
{
    proof {
        reveal_strlit("R");
    }
    let mut s = String::from_str("R");
    push_decimal_chirho(&mut s, k);
    s
}

fn copy_string_chirho(s: &String) -> (r: String)
    ensures
        r@ == s@,
{
    s.clone()
}

pub(crate) fn copy_strings_chirho(v: &Vec<String>) -> (r: Vec<String>)
    ensures
        strs(r@) == strs(v@),
{
    let mut out: Vec<String> = Vec::new();
    let mut i: usize = 0;
    while i < v.len()
        invariant
            i <= v.len(),
            out.len() == i,
            strs(out@) == strs(v@).take(i as int),
        decreases v.len() - i,
    {
        let ghost prev = out@;
        let c = copy_string_chirho(&v[i]);
        out.push(c);
        proof {
            assert(out@ == prev.push(c));
            assert forall|k: int| 0 <= k < i + 1 implies #[trigger] strs(out@)[k] == strs(v@).take(i + 1)[k] by {
                if k < i {
                    assert(out@[k] == prev[k]);
                    assert(strs(prev)[k] == strs(v@).take(i as int)[k]);
                }
            }
            assert(strs(out@) =~= strs(v@).take(i + 1));
        }
        i = i + 1;
    }
    proof {
        assert(strs(v@).take(v.len() as int) =~= strs(v@));
    }
    out
}

/// Does the list hold the text?
fn contains_str_chirho(v: &Vec<String>, s: &String) -> (r: bool)
    ensures
        r == strs(v@).contains(s@),
{
    let mut i: usize = 0;
    while i < v.len()
        invariant
            i <= v.len(),
            forall|t: int| 0 <= t < i ==> strs(v@)[t] != s@,
        decreases v.len() - i,
    {
        if v[i] == *s {
            proof {
                assert(strs(v@)[i as int] == s@);
            }
            return true;
        }
        i = i + 1;
    }
    false
}

/// The members of `a` that `b` lacks, in order.
fn without_chirho(a: &Vec<String>, b: &Vec<String>) -> (r: Vec<String>)
    ensures
        strs(r@) == without(strs(a@), strs(b@)),
{
    let mut out: Vec<String> = Vec::new();
    let mut i: usize = 0;
    while i < a.len()
        invariant
            i <= a.len(),
            strs(out@) == without(strs(a@).take(i as int), strs(b@)),
        decreases a.len() - i,
    {
        let keep = !contains_str_chirho(b, &a[i]);
        proof {
            assert(strs(a@).take(i + 1).drop_last() =~= strs(a@).take(i as int));
        }
        if keep {
            out.push(copy_string_chirho(&a[i]));
            proof {
                assert(strs(out@) =~= without(strs(a@).take(i as int), strs(b@)).push(a@[i as int]@));
            }
        }
        i = i + 1;
    }
    proof {
        assert(strs(a@).take(a.len() as int) =~= strs(a@));
    }
    out
}

/// Do the two index lists share a name?
fn shares_chirho(a: &Vec<String>, b: &Vec<String>) -> (r: bool)
    ensures
        r == shares(strs(a@), strs(b@)),
{
    let mut i: usize = 0;
    while i < a.len()
        invariant
            i <= a.len(),
            forall|t: int| 0 <= t < i ==> !strs(b@).contains(#[trigger] strs(a@)[t]),
        decreases a.len() - i,
    {
        if contains_str_chirho(b, &a[i]) {
            proof {
                assert(strs(b@).contains(strs(a@)[i as int]));
            }
            return true;
        }
        i = i + 1;
    }
    false
}

/// The size given to an index name (10 when none is).
fn lookup_chirho(sizes: &Vec<(String, usize)>, key: &String) -> (r: usize)
    ensures
        r == lookup(sizes_m(sizes@), key@),
{
    let ghost sm = sizes_m(sizes@);
    let mut i: usize = 0;
    proof {
        assert(sm.subrange(0, sm.len() as int) =~= sm);
    }
    while i < sizes.len()
        invariant
            i <= sizes.len(),
            sm == sizes_m(sizes@),
            lookup(sm, key@) == lookup(sm.subrange(i as int, sm.len() as int), key@),
        decreases sizes.len() - i,
    {
        let ghost rest = sm.subrange(i as int, sm.len() as int);
        assert(rest[0] == sm[i as int]);
        if sizes[i].0 == *key {
            return sizes[i].1;
        }
        proof {
            assert(rest.drop_first() =~= sm.subrange(i + 1, sm.len() as int));
        }
        i = i + 1;
    }
    10
}

/// Product of the index sizes, multiplied from the front.
fn product_chirho(s: &Vec<String>, sizes: &Vec<(String, usize)>) -> (r: usize)
    requires
        prefix_fits(strs(s@), sizes_m(sizes@)),
    ensures
        r == product(strs(s@), sizes_m(sizes@)),
{
    let ghost sm = sizes_m(sizes@);
    let mut acc: usize = 1;
    let mut i: usize = 0;
    proof {
        assert(strs(s@).take(0) =~= Seq::<Seq<char>>::empty());
    }
    while i < s.len()
        invariant
            i <= s.len(),
            sm == sizes_m(sizes@),
            prefix_fits(strs(s@), sm),
            acc == product(strs(s@).take(i as int), sm),
        decreases s.len() - i,
    {
        let f = lookup_chirho(sizes, &s[i]);
        proof {
            assert(strs(s@).take(i + 1).drop_last() =~= strs(s@).take(i as int));
            assert(strs(s@).take(i + 1).last() == s@[i as int]@);
            assert(product(strs(s@).take(i + 1), sm) <= usize::MAX);
        }
        acc = acc * f;
        i = i + 1;
    }
    proof {
        assert(strs(s@).take(s.len() as int) =~= strs(s@));
    }
    acc
}

/// Cost of contracting tensors `i` and `j`: the product of the result's index sizes.
pub open spec fn pair_cost(rem: Seq<(Seq<char>, Seq<Seq<char>>, int)>, sizes: Seq<(Seq<char>, int)>, i: int, j: int) -> int {
    product(sym_diff(rem[i].1, rem[j].1), sizes)
}

/// Tensors `i < j` share an index and their cost is below `usize::MAX`.
pub open spec fn candidate(rem: Seq<(Seq<char>, Seq<Seq<char>>, int)>, sizes: Seq<(Seq<char>, int)>, i: int, j: int) -> bool {
    0 <= i < j < rem.len() && shares(rem[i].1, rem[j].1) && pair_cost(rem, sizes, i, j) < usize::MAX
}

/// `(i, j)` is the cheapest candidate, and the first such in `(i, j)` order.
pub open spec fn best_pair(rem: Seq<(Seq<char>, Seq<Seq<char>>, int)>, sizes: Seq<(Seq<char>, int)>, i: int, j: int) -> bool {
    &&& candidate(rem, sizes, i, j)
    &&& forall|a: int, b: int| #[trigger] candidate(rem, sizes, a, b) ==> pair_cost(rem, sizes, a, b) >= pair_cost(rem, sizes, i, j)
        && ((a < i || (a == i && b < j)) ==> pair_cost(rem, sizes, a, b) > pair_cost(rem, sizes, i, j))
}

/// One greedy step from the tensors `rem`, the `k`-th: the remaining tensors
/// and the step taken. The cheapest candidate pair is contracted into a tensor
/// with the indices of exactly one side; without a candidate the first two
/// tensors are joined, their sizes multiplied.
pub open spec fn greedy_next(rem: Seq<(Seq<char>, Seq<Seq<char>>, int)>, sizes: Seq<(Seq<char>, int)>, k: nat)
    -> (Seq<(Seq<char>, Seq<Seq<char>>, int)>, (Seq<char>, Seq<char>, Seq<char>, int))
{
    if exists|i: int, j: int| best_pair(rem, sizes, i, j) {
        let (i, j) = choose|i: int, j: int| best_pair(rem, sizes, i, j);
        let c = pair_cost(rem, sizes, i, j);
        (rem.remove(j).remove(i).push((r_name(k), sym_diff(rem[i].1, rem[j].1), c)), (rem[i].0, rem[j].0, r_name(k), c))
    } else {
        let c = rem[0].2 * rem[1].2;
        (rem.subrange(2, rem.len() as int).push((r_name(k), union_idx(rem[0].1, rem[1].1), c)), (rem[0].0, rem[1].0, r_name(k), c))
    }
}

/// A greedy step leaves one tensor fewer.
pub proof fn lemma_greedy_next_len(rem: Seq<(Seq<char>, Seq<Seq<char>>, int)>, sizes: Seq<(Seq<char>, int)>, k: nat)
    requires
        rem.len() >= 2,
    ensures
        greedy_next(rem, sizes, k).0.len() == rem.len() - 1,
{
}

/// The steps of the greedy order from the tensors `rem`, numbering from `k`.
pub open spec fn greedy_spec(rem: Seq<(Seq<char>, Seq<Seq<char>>, int)>, sizes: Seq<(Seq<char>, int)>, k: nat)
    -> Seq<(Seq<char>, Seq<char>, Seq<char>, int)>
    decreases rem.len(),
{
    if rem.len() <= 1 {
        Seq::empty()
    } else {
        proof {
            lemma_greedy_next_len(rem, sizes, k);
        }
        seq![greedy_next(rem, sizes, k).1] + greedy_spec(greedy_next(rem, sizes, k).0, sizes, k + 1)
    }
}

/// The greedy order from `rem` computes nothing beyond `usize`: every cost
/// it evaluates (all its partial products), every joined size and every
/// step number fit.
pub open spec fn greedy_fits(rem: Seq<(Seq<char>, Seq<Seq<char>>, int)>, sizes: Seq<(Seq<char>, int)>, k: nat) -> bool
    decreases rem.len(),
{
    if rem.len() <= 1 {
        true
    } else {
        proof {
            lemma_greedy_next_len(rem, sizes, k);
        }
        &&& k < usize::MAX
        &&& forall|i: int, j: int| 0 <= i < j < rem.len() && shares(rem[i].1, rem[j].1)
            ==> #[trigger] prefix_fits(sym_diff(rem[i].1, rem[j].1), sizes)
        &&& (!exists|i: int, j: int| best_pair(rem, sizes, i, j)) ==> rem[0].2 * rem[1].2 <= usize::MAX
        &&& greedy_fits(greedy_next(rem, sizes, k).0, sizes, k + 1)
    }
}

/// The greedy order takes one step fewer than there are tensors.
pub proof fn lemma_greedy_len(rem: Seq<(Seq<char>, Seq<Seq<char>>, int)>, sizes: Seq<(Seq<char>, int)>, k: nat)
    ensures
        greedy_spec(rem, sizes, k).len() == if rem.len() <= 1 { 0 } else { rem.len() - 1 },
    decreases rem.len(),
{
    if rem.len() > 1 {
        lemma_greedy_next_len(rem, sizes, k);
        lemma_greedy_len(greedy_next(rem, sizes, k).0, sizes, k + 1);
    }
}

/// Step `i` of the greedy order names its result `R` followed by `k + i`.
pub proof fn lemma_greedy_names(rem: Seq<(Seq<char>, Seq<Seq<char>>, int)>, sizes: Seq<(Seq<char>, int)>, k: nat)
    ensures
        forall|i: int| 0 <= i < greedy_spec(rem, sizes, k).len() ==> (#[trigger] greedy_spec(rem, sizes, k)[i]).2 == r_name(
            (k + i) as nat,
        ),
    decreases rem.len(),
{
    if rem.len() > 1 {
        lemma_greedy_next_len(rem, sizes, k);
        let rest = greedy_spec(greedy_next(rem, sizes, k).0, sizes, k + 1);
        lemma_greedy_names(greedy_next(rem, sizes, k).0, sizes, k + 1);
        assert forall|i: int| 0 <= i < greedy_spec(rem, sizes, k).len() implies (#[trigger] greedy_spec(rem, sizes, k)[i]).2
            == r_name((k + i) as nat) by {
            if i > 0 {
                assert(greedy_spec(rem, sizes, k)[i] == rest[i - 1]);
            }
        }
    }
}

/// The cheapest first candidate is unique.
proof fn lemma_best_unique(rem: Seq<(Seq<char>, Seq<Seq<char>>, int)>, sizes: Seq<(Seq<char>, int)>, i: int, j: int, a: int, b: int)
    requires
        best_pair(rem, sizes, i, j),
        best_pair(rem, sizes, a, b),
    ensures
        i == a && j == b,
{
    assert(candidate(rem, sizes, a, b));
    assert(candidate(rem, sizes, i, j));
}

fn copy_node_chirho(t: &TensorNodeChirho) -> (r: TensorNodeChirho)
    ensures
        node_m(r) == node_m(*t),
{
    TensorNodeChirho {
        name_chirho: copy_string_chirho(&t.name_chirho),
        indices_chirho: copy_strings_chirho(&t.indices_chirho),
        size_chirho: t.size_chirho,
    }
}

fn copy_nodes_chirho(v: &Vec<TensorNodeChirho>) -> (r: Vec<TensorNodeChirho>)
    ensures
        nodes_m(r@) == nodes_m(v@),
{
    let mut out: Vec<TensorNodeChirho> = Vec::new();
    let mut i: usize = 0;
    while i < v.len()
        invariant
            i <= v.len(),
            out.len() == i,
            nodes_m(out@) == nodes_m(v@).take(i as int),
        decreases v.len() - i,
    {
        let ghost prev = out@;
        let c = copy_node_chirho(&v[i]);
        out.push(c);
        proof {
            assert(out@ == prev.push(c));
            assert forall|k: int| 0 <= k < i + 1 implies #[trigger] nodes_m(out@)[k] == nodes_m(v@).take(i + 1)[k] by {
                if k < i {
                    assert(out@[k] == prev[k]);
                    assert(nodes_m(prev)[k] == nodes_m(v@).take(i as int)[k]);
                }
            }
            assert(nodes_m(out@) =~= nodes_m(v@).take(i + 1));
        }
        i = i + 1;
    }
    proof {
        assert(nodes_m(v@).take(v.len() as int) =~= nodes_m(v@));
    }
    out
}

/// The greedy contraction order: repeatedly contract the pair of tensors
/// that share an index and whose result is cheapest (the first such pair),
/// naming results `R0`, `R1`, ...; when no pair shares an index, join the
/// first two tensors.
pub fn greedy_order_chirho(network_chirho: &TensorNetworkChirho) -> (r: Vec<ContractionStepChirho>)
    requires
        greedy_fits(nodes_m(network_chirho.tensors_chirho@), sizes_m(network_chirho.index_sizes_chirho@), 0),
    ensures
        steps_m(r@) == greedy_spec(nodes_m(network_chirho.tensors_chirho@), sizes_m(network_chirho.index_sizes_chirho@), 0),
{
    let ghost sm = sizes_m(network_chirho.index_sizes_chirho@);
    let ghost m0 = nodes_m(network_chirho.tensors_chirho@);
    let sizes = &network_chirho.index_sizes_chirho;
    let mut steps_chirho: Vec<ContractionStepChirho> = Vec::new();
    let mut remaining_chirho = copy_nodes_chirho(&network_chirho.tensors_chirho);
    let mut step_id_chirho: usize = 0;
    proof {
        assert(steps_m(steps_chirho@) + greedy_spec(m0, sm, 0) =~= greedy_spec(m0, sm, 0));
    }
    while remaining_chirho.len() > 1
        invariant
            sm == sizes_m(sizes@),
            steps_m(steps_chirho@) + greedy_spec(nodes_m(remaining_chirho@), sm, step_id_chirho as nat) == greedy_spec(m0, sm, 0),
            greedy_fits(nodes_m(remaining_chirho@), sm, step_id_chirho as nat),
        decreases remaining_chirho.len(),
    {
        let ghost m = nodes_m(remaining_chirho@);
        let ghost k = step_id_chirho as nat;
        let n = remaining_chirho.len();
        let mut best_cost: usize = usize::MAX;
        let mut best: Option<(usize, usize)> = None;
        let mut best_idx: Vec<String> = Vec::new();
        let mut i: usize = 0;
        while i < n
            invariant
                n == remaining_chirho.len(),
                m == nodes_m(remaining_chirho@),
                sm == sizes_m(sizes@),
                greedy_fits(m, sm, k),
                n >= 2,
                i <= n,
                best matches Some((bi, bj)) ==> candidate(m, sm, bi as int, bj as int)
                    && best_cost == pair_cost(m, sm, bi as int, bj as int)
                    && strs(best_idx@) == sym_diff(m[bi as int].1, m[bj as int].1)
                    && bi < i,
                best is None ==> best_cost == usize::MAX,
                forall|a: int, b: int| #[trigger] candidate(m, sm, a, b) && a < i ==> pair_cost(m, sm, a, b) >= best_cost
                    && (best matches Some((bi, bj)) && (a < bi || (a == bi && b < bj)) ==> pair_cost(m, sm, a, b) > best_cost),
            decreases n - i,
        {
            let mut j: usize = i + 1;
            while j < n
                invariant
                    n == remaining_chirho.len(),
                    m == nodes_m(remaining_chirho@),
                    sm == sizes_m(sizes@),
                    greedy_fits(m, sm, k),
                    n >= 2,
                    i < n,
                    i < j <= n,
                    best matches Some((bi, bj)) ==> candidate(m, sm, bi as int, bj as int)
                        && best_cost == pair_cost(m, sm, bi as int, bj as int)
                        && strs(best_idx@) == sym_diff(m[bi as int].1, m[bj as int].1)
                        && (bi < i || (bi == i && bj < j)),
                    best is None ==> best_cost == usize::MAX,
                    forall|a: int, b: int| #[trigger] candidate(m, sm, a, b) && (a < i || (a == i && b < j))
                        ==> pair_cost(m, sm, a, b) >= best_cost
                        && (best matches Some((bi, bj)) && (a < bi || (a == bi && b < bj)) ==> pair_cost(m, sm, a, b) > best_cost),
                decreases n - j,
            {
                let t1 = &remaining_chirho[i];
                let t2 = &remaining_chirho[j];
                proof {
                    assert(m[i as int] == node_m(remaining_chirho@[i as int]));
                    assert(m[j as int] == node_m(remaining_chirho@[j as int]));
                }
                if shares_chirho(&t1.indices_chirho, &t2.indices_chirho) {
                    let mut res = without_chirho(&t1.indices_chirho, &t2.indices_chirho);
                    let mut right = without_chirho(&t2.indices_chirho, &t1.indices_chirho);
                    let ghost lv = res@;
                    let ghost rv = right@;
                    res.append(&mut right);
                    proof {
                        assert(strs(res@) =~= strs(lv) + strs(rv));
                        assert(prefix_fits(sym_diff(m[i as int].1, m[j as int].1), sm));
                    }
                    let c = product_chirho(&res, sizes);
                    if c < best_cost {
                        best_cost = c;
                        best = Some((i, j));
                        best_idx = res;
                    }
                }
                j = j + 1;
            }
            i = i + 1;
        }
        proof {
            lemma_greedy_next_len(m, sm, k);
        }
        match best {
            Some((bi, bj)) => {
                proof {
                    assert(best_pair(m, sm, bi as int, bj as int));
                    let (ci, cj) = choose|ci: int, cj: int| best_pair(m, sm, ci, cj);
                    lemma_best_unique(m, sm, bi as int, bj as int, ci, cj);
                }
                let name1 = copy_string_chirho(&remaining_chirho[bi].name_chirho);
                let name2 = copy_string_chirho(&remaining_chirho[bj].name_chirho);
                let rname = result_name_chirho(step_id_chirho);
                let rname2 = copy_string_chirho(&rname);
                let step = ContractionStepChirho {
                    tensor1_chirho: name1,
                    tensor2_chirho: name2,
                    result_chirho: rname2,
                    cost_chirho: best_cost,
                };
                let ghost st = step_m(step);
                let ghost old_steps = steps_chirho@;
                steps_chirho.push(step);
                let ghost before = remaining_chirho@;
                let _t2 = remaining_chirho.remove(bj);
                let _t1 = remaining_chirho.remove(bi);
                let node = TensorNodeChirho { name_chirho: rname, indices_chirho: best_idx, size_chirho: best_cost };
                let ghost nm = node_m(node);
                remaining_chirho.push(node);
                proof {
                    assert(remaining_chirho@ == before.remove(bj as int).remove(bi as int).push(node));
                    assert(nodes_m(remaining_chirho@) =~= m.remove(bj as int).remove(bi as int).push(nm));
                    assert(greedy_next(m, sm, k).0 == nodes_m(remaining_chirho@));
                    assert(greedy_next(m, sm, k).1 == st);
                    assert(steps_m(steps_chirho@) =~= steps_m(old_steps).push(st));
                    assert(greedy_spec(m, sm, k) == seq![st] + greedy_spec(nodes_m(remaining_chirho@), sm, k + 1));
                    assert(steps_m(steps_chirho@) + greedy_spec(nodes_m(remaining_chirho@), sm, k + 1)
                        =~= steps_m(old_steps) + greedy_spec(m, sm, k));
                }
            },
            None => {
                proof {
                    assert forall|a: int, b: int| !best_pair(m, sm, a, b) by {
                        if best_pair(m, sm, a, b) {
                            assert(candidate(m, sm, a, b));
                        }
                    }
                }
                let ghost before = remaining_chirho@;
                let t1 = remaining_chirho.remove(0);
                let t2 = remaining_chirho.remove(0);
                proof {
                    assert(node_m(t1) == m[0] && node_m(t2) == m[1]);
                }
                let mut idx = copy_strings_chirho(&t1.indices_chirho);
                let mut extra = without_chirho(&t2.indices_chirho, &t1.indices_chirho);
                let ghost iv = idx@;
                let ghost ev = extra@;
                idx.append(&mut extra);
                let size = t1.size_chirho * t2.size_chirho;
                let rname = result_name_chirho(step_id_chirho);
                let rname2 = copy_string_chirho(&rname);
                let step = ContractionStepChirho {
                    tensor1_chirho: t1.name_chirho,
                    tensor2_chirho: t2.name_chirho,
                    result_chirho: rname2,
                    cost_chirho: size,
                };
                let ghost st = step_m(step);
                let ghost old_steps = steps_chirho@;
                steps_chirho.push(step);
                let node = TensorNodeChirho { name_chirho: rname, indices_chirho: idx, size_chirho: size };
                let ghost nm = node_m(node);
                let ghost mid = remaining_chirho@;
                remaining_chirho.push(node);
                proof {
                    assert(strs(idx@) =~= strs(iv) + strs(ev));
                    assert(mid =~= before.subrange(2, before.len() as int));
                    assert(nodes_m(remaining_chirho@) =~= m.subrange(2, m.len() as int).push(nm));
                    assert(greedy_next(m, sm, k).0 == nodes_m(remaining_chirho@));
                    assert(greedy_next(m, sm, k).1 == st);
                    assert(steps_m(steps_chirho@) =~= steps_m(old_steps).push(st));
                    assert(greedy_spec(m, sm, k) == seq![st] + greedy_spec(nodes_m(remaining_chirho@), sm, k + 1));
                    assert(steps_m(steps_chirho@) + greedy_spec(nodes_m(remaining_chirho@), sm, k + 1)
                        =~= steps_m(old_steps) + greedy_spec(m, sm, k));
                }
            },
        }
        step_id_chirho = step_id_chirho + 1;
    }
    proof {
        assert(steps_m(steps_chirho@) + greedy_spec(nodes_m(remaining_chirho@), sm, step_id_chirho as nat) =~= steps_m(steps_chirho@));
    }
    steps_chirho
}

/// The texts of a slice of string slices.
pub open spec fn texts(v: Seq<&str>) -> Seq<Seq<char>> {
    v.map_values(|s: &str| s@)
}

/// The list with later repeats dropped.
pub open spec fn dedup(s: Seq<Seq<char>>) -> Seq<Seq<char>>
    decreases s.len(),
{
    if s.len() == 0 {
        s
    } else if dedup(s.drop_last()).contains(s.last()) {
        dedup(s.drop_last())
    } else {
        dedup(s.drop_last()).push(s.last())
    }
}

/// Sum of the step costs.
pub open spec fn cost_sum(steps: Seq<ContractionStepChirho>) -> int
    decreases steps.len(),
{
    if steps.len() == 0 {
        0
    } else {
        cost_sum(steps.drop_last()) + steps.last().cost_chirho
    }
}

impl TensorNetworkChirho {
    /// An empty network.
    pub fn new() -> (r: Self)
        ensures
            r.tensors_chirho@.len() == 0,
            r.index_sizes_chirho@.len() == 0,
    {
        Self { tensors_chirho: Vec::new(), index_sizes_chirho: Vec::new() }
    }

    /// Add a tensor with the given name, index names (repeats dropped) and size.
    pub fn add_tensor_chirho(&mut self, name_chirho: &str, indices_chirho: &[&str], size_chirho: usize)
        ensures
            final(self).index_sizes_chirho@ == old(self).index_sizes_chirho@,
            final(self).tensors_chirho@.len() == old(self).tensors_chirho@.len() + 1,
            forall|k: int| 0 <= k < old(self).tensors_chirho@.len() ==> #[trigger] final(self).tensors_chirho@[k] == old(self).tensors_chirho@[k],
            node_m(final(self).tensors_chirho@.last()) == (name_chirho@, dedup(texts(indices_chirho@)), size_chirho as int),
    {
        let mut idx: Vec<String> = Vec::new();
        let mut i: usize = 0;
        while i < indices_chirho.len()
            invariant
                i <= indices_chirho.len(),
                strs(idx@) == dedup(texts(indices_chirho@).take(i as int)),
            decreases indices_chirho.len() - i,
        {
            let s = String::from_str(indices_chirho[i]);
            let ghost t = texts(indices_chirho@);
            proof {
                assert(t.take(i + 1).drop_last() =~= t.take(i as int));
                assert(t.take(i + 1).last() == s@);
            }
            if !contains_str_chirho(&idx, &s) {
                let ghost prev = idx@;
                idx.push(s);
                proof {
                    assert(strs(idx@) =~= strs(prev).push(idx@[prev.len() as int]@));
                }
            }
            i = i + 1;
        }
        proof {
            assert(texts(indices_chirho@).take(indices_chirho.len() as int) =~= texts(indices_chirho@));
        }
        let node = TensorNodeChirho { name_chirho: String::from_str(name_chirho), indices_chirho: idx, size_chirho };
        self.tensors_chirho.push(node);
    }

    /// Give an index name a size (replacing an earlier size).
    pub fn set_index_size_chirho(&mut self, index_chirho: &str, size_chirho: usize)
        ensures
            final(self).tensors_chirho@ == old(self).tensors_chirho@,
            forall|key: Seq<char>| #[trigger] lookup(sizes_m(final(self).index_sizes_chirho@), key)
                == if key == index_chirho@ { size_chirho as int } else { lookup(sizes_m(old(self).index_sizes_chirho@), key) },
    {
        let key = String::from_str(index_chirho);
        let ghost s0 = sizes_m(self.index_sizes_chirho@);
        let mut i: usize = 0;
        while i < self.index_sizes_chirho.len()
            invariant
                i <= self.index_sizes_chirho.len(),
                s0 == sizes_m(self.index_sizes_chirho@),
                s0 == sizes_m(old(self).index_sizes_chirho@),
                self.tensors_chirho@ == old(self).tensors_chirho@,
                key@ == index_chirho@,
                forall|t: int| 0 <= t < i ==> #[trigger] s0[t].0 != key@,
            decreases self.index_sizes_chirho.len() - i,
        {
            if self.index_sizes_chirho[i].0 == key {
                let ghost v0 = self.index_sizes_chirho@;
                let k2 = copy_string_chirho(&key);
                self.index_sizes_chirho.set(i, (k2, size_chirho));
                proof {
                    let s1 = sizes_m(self.index_sizes_chirho@);
                    assert(s1 =~= s0.update(i as int, (key@, size_chirho as int)));
                    assert forall|k: Seq<char>| #[trigger] lookup(s1, k)
                        == if k == index_chirho@ { size_chirho as int } else { lookup(s0, k) } by {
                        lemma_lookup_update(s0, i as int, key@, size_chirho as int, k);
                    }
                }
                return;
            }
            i = i + 1;
        }
        let ghost v0 = self.index_sizes_chirho@;
        self.index_sizes_chirho.push((key, size_chirho));
        proof {
            let s1 = sizes_m(self.index_sizes_chirho@);
            assert(s1 =~= s0.push((index_chirho@, size_chirho as int)));
            assert forall|k: Seq<char>| #[trigger] lookup(s1, k)
                == if k == index_chirho@ { size_chirho as int } else { lookup(s0, k) } by {
                lemma_lookup_push(s0, index_chirho@, size_chirho as int, k);
            }
        }
    }
}

impl Default for TensorNetworkChirho {
    fn default() -> (r: Self)
        ensures
            r.tensors_chirho@.len() == 0,
            r.index_sizes_chirho@.len() == 0,
    {
        Self::new()
    }
}

/// Overwriting the first entry of a key changes that key's size only.
proof fn lemma_lookup_update(s: Seq<(Seq<char>, int)>, i: int, key: Seq<char>, size: int, k: Seq<char>)
    requires
        0 <= i < s.len(),
        s[i].0 == key,
        forall|t: int| 0 <= t < i ==> #[trigger] s[t].0 != key,
    ensures
        lookup(s.update(i, (key, size)), k) == if k == key { size } else { lookup(s, k) },
    decreases i,
{
    assert(s.update(i, (key, size)).len() > 0);
    if i == 0 {
        assert(s.update(i, (key, size)).drop_first() =~= s.drop_first());
    } else {
        assert(s.update(i, (key, size))[0] == s[0]);
        assert(s[0].0 != key);
        assert(s.update(i, (key, size)).drop_first() =~= s.drop_first().update(i - 1, (key, size)));
        assert forall|t: int| 0 <= t < i - 1 implies #[trigger] s.drop_first()[t].0 != key by {
            assert(s[t + 1].0 != key);
        }
        lemma_lookup_update(s.drop_first(), i - 1, key, size, k);
    }
}

/// Appending a key that is not yet there gives it its size.
proof fn lemma_lookup_push(s: Seq<(Seq<char>, int)>, key: Seq<char>, size: int, k: Seq<char>)
    requires
        forall|t: int| 0 <= t < s.len() ==> #[trigger] s[t].0 != key,
    ensures
        lookup(s.push((key, size)), k) == if k == key { size } else { lookup(s, k) },
    decreases s.len(),
{
    if s.len() == 0 {
        assert(s.push((key, size)).drop_first() =~= s);
    } else {
        assert(s.push((key, size)).drop_first() =~= s.drop_first().push((key, size)));
        assert forall|t: int| 0 <= t < s.drop_first().len() implies #[trigger] s.drop_first()[t].0 != key by {
            assert(s[t + 1].0 != key);
        }
        lemma_lookup_push(s.drop_first(), key, size, k);
    }
}

/// Total cost of a contraction plan.
pub fn total_cost_chirho(steps_chirho: &[ContractionStepChirho]) -> (r: usize)
    requires
        cost_sum(steps_chirho@) <= usize::MAX,
    ensures
        r == cost_sum(steps_chirho@),
{
    let mut total: usize = 0;
    let mut i: usize = 0;
    while i < steps_chirho.len()
        invariant
            i <= steps_chirho.len(),
            total == cost_sum(steps_chirho@.take(i as int)),
            cost_sum(steps_chirho@) <= usize::MAX,
        decreases steps_chirho.len() - i,
    {
        proof {
            assert(steps_chirho@.take(i + 1).drop_last() =~= steps_chirho@.take(i as int));
            lemma_cost_sum_prefix(steps_chirho@, i + 1);
        }
        total = total + steps_chirho[i].cost_chirho;
        i = i + 1;
    }
    proof {
        assert(steps_chirho@.take(steps_chirho.len() as int) =~= steps_chirho@);
    }
    total
}

/// The costs of a prefix add up to no more than all of them.
proof fn lemma_cost_sum_prefix(steps: Seq<ContractionStepChirho>, n: int)
    requires
        0 <= n <= steps.len(),
    ensures
        cost_sum(steps.take(n)) <= cost_sum(steps),
    decreases steps.len(),
{
    if n < steps.len() {
        assert(steps.drop_last().take(n) =~= steps.take(n));
        lemma_cost_sum_prefix(steps.drop_last(), n);
    } else {
        assert(steps.take(n) =~= steps);
    }
}


/// Product of the sizes of the tensors.
pub open spec fn size_product(rem: Seq<(Seq<char>, Seq<Seq<char>>, int)>) -> int
    decreases rem.len(),
{
    if rem.len() == 0 {
        1
    } else {
        size_product(rem.drop_last()) * rem.last().2
    }
}

/// No two of the tensors share an index.
pub open spec fn pairwise_apart(rem: Seq<(Seq<char>, Seq<Seq<char>>, int)>) -> bool {
    forall|i: int, j: int| 0 <= i < j < rem.len() ==> !shares(#[trigger] rem[i].1, #[trigger] rem[j].1)
}

proof fn lemma_without_sub(a: Seq<Seq<char>>, b: Seq<Seq<char>>, x: Seq<char>)
    requires
        without(a, b).contains(x),
    ensures
        a.contains(x),
    decreases a.len(),
{
    if a.len() > 0 {
        if without(a.drop_last(), b).contains(x) {
            lemma_without_sub(a.drop_last(), b, x);
            let t = choose|t: int| 0 <= t < a.drop_last().len() && a.drop_last()[t] == x;
            assert(a[t] == x);
        } else {
            if !b.contains(a.last()) {
                assert(without(a, b) == without(a.drop_last(), b).push(a.last()));
                let t = choose|t: int| 0 <= t < without(a, b).len() && without(a, b)[t] == x;
                assert(x == a.last());
                assert(a[a.len() - 1] == x);
            }
        }
    }
}

proof fn lemma_union_shares(a: Seq<Seq<char>>, b: Seq<Seq<char>>, c: Seq<Seq<char>>)
    requires
        shares(union_idx(a, b), c),
    ensures
        shares(a, c) || shares(c, a) || shares(b, c),
{
    let u = union_idx(a, b);
    let k = choose|k: int| 0 <= k < u.len() && c.contains(#[trigger] u[k]);
    if k < a.len() {
        assert(u[k] == a[k]);
    } else {
        let w = without(b, a);
        assert(u[k] == w[k - a.len()]);
        assert(w.contains(u[k]));
        lemma_without_sub(b, a, u[k]);
        let t = choose|t: int| 0 <= t < b.len() && b[t] == u[k];
        assert(c.contains(b[t]));
    }
}

proof fn lemma_shares_sym(a: Seq<Seq<char>>, b: Seq<Seq<char>>)
    requires
        shares(a, b),
    ensures
        shares(b, a),
{
    let k = choose|k: int| 0 <= k < a.len() && b.contains(#[trigger] a[k]);
    let t = choose|t: int| 0 <= t < b.len() && b[t] == a[k];
    assert(a.contains(b[t]));
}

proof fn lemma_size_product_front(rem: Seq<(Seq<char>, Seq<Seq<char>>, int)>)
    requires
        rem.len() >= 1,
    ensures
        size_product(rem) == rem[0].2 * size_product(rem.drop_first()),
    decreases rem.len(),
{
    if rem.len() == 1 {
        assert(rem.drop_first() =~= Seq::<(Seq<char>, Seq<Seq<char>>, int)>::empty());
        assert(rem.drop_last() =~= Seq::<(Seq<char>, Seq<Seq<char>>, int)>::empty());
    } else {
        lemma_size_product_front(rem.drop_last());
        assert(rem.drop_last().drop_first() =~= rem.drop_first().drop_last());
        assert(rem.drop_first().last() == rem.last());
        let a = rem[0].2;
        let p = size_product(rem.drop_first().drop_last());
        let l = rem.last().2;
        assert((a * p) * l == a * (p * l)) by (nonlinear_arith);
    }
}

/// Joining tensors that share no index multiplies their sizes: when no two
/// tensors of the network share an index, the greedy order ends with a step
/// whose cost is the product of the sizes of all the tensors.
pub proof fn lemma_greedy_outer_product(rem: Seq<(Seq<char>, Seq<Seq<char>>, int)>, sizes: Seq<(Seq<char>, int)>, k: nat)
    requires
        rem.len() >= 2,
        pairwise_apart(rem),
    ensures
        greedy_spec(rem, sizes, k).len() == rem.len() - 1,
        greedy_spec(rem, sizes, k).last().3 == size_product(rem),
    decreases rem.len(),
{
    lemma_greedy_len(rem, sizes, k);
    assert(!exists|i: int, j: int| best_pair(rem, sizes, i, j)) by {
        if exists|i: int, j: int| best_pair(rem, sizes, i, j) {
            let (i, j) = choose|i: int, j: int| best_pair(rem, sizes, i, j);
            assert(!shares(rem[i].1, rem[j].1));
        }
    }
    let nxt = greedy_next(rem, sizes, k);
    let c = rem[0].2 * rem[1].2;
    let tail = rem.subrange(2, rem.len() as int);
    assert(nxt.0 == tail.push((r_name(k), union_idx(rem[0].1, rem[1].1), c)));
    assert(nxt.1.3 == c);
    // The product of the sizes is kept.
    lemma_size_product_front(rem);
    lemma_size_product_front(rem.drop_first());
    assert(rem.drop_first().drop_first() =~= tail);
    assert(nxt.0.drop_last() =~= tail);
    assert(size_product(nxt.0) == size_product(tail) * c);
    let st = size_product(tail);
    assert(rem[0].2 * (rem[1].2 * st) == st * (rem[0].2 * rem[1].2)) by (nonlinear_arith);
    assert(size_product(nxt.0) == size_product(rem));
    if rem.len() == 2 {
        lemma_greedy_len(nxt.0, sizes, k + 1);
        assert(greedy_spec(rem, sizes, k) =~= seq![nxt.1]);
        assert(tail =~= Seq::<(Seq<char>, Seq<Seq<char>>, int)>::empty());
        assert(size_product(tail) == 1);
        assert(c * 1 == c);
    } else {
        assert(pairwise_apart(nxt.0)) by {
            assert forall|i: int, j: int| 0 <= i < j < nxt.0.len() implies !shares(#[trigger] nxt.0[i].1, #[trigger] nxt.0[j].1) by {
                if j == nxt.0.len() - 1 {
                    assert(nxt.0[i] == rem[i + 2]);
                    if shares(nxt.0[i].1, nxt.0[j].1) {
                        lemma_shares_sym(nxt.0[i].1, nxt.0[j].1);
                        lemma_union_shares(rem[0].1, rem[1].1, rem[i + 2].1);
                        assert(!shares(rem[0].1, rem[i + 2].1));
                        assert(!shares(rem[1].1, rem[i + 2].1));
                        if shares(rem[i + 2].1, rem[0].1) {
                            lemma_shares_sym(rem[i + 2].1, rem[0].1);
                        }
                    }
                } else {
                    assert(nxt.0[i] == rem[i + 2]);
                    assert(nxt.0[j] == rem[j + 2]);
                }
            }
        }
        lemma_greedy_outer_product(nxt.0, sizes, k + 1);
        let rest = greedy_spec(nxt.0, sizes, k + 1);
        assert(greedy_spec(rem, sizes, k) == seq![nxt.1] + rest);
        assert(greedy_spec(rem, sizes, k).last() == rest.last());
    }
}


proof fn lemma_without_iff(a: Seq<Seq<char>>, b: Seq<Seq<char>>, x: Seq<char>)
    ensures
        without(a, b).contains(x) <==> (a.contains(x) && !b.contains(x)),
    decreases a.len(),
{
    if a.len() > 0 {
        lemma_without_iff(a.drop_last(), b, x);
        let w = without(a.drop_last(), b);
        if a.contains(x) && !b.contains(x) {
            let t = choose|t: int| 0 <= t < a.len() && a[t] == x;
            if t < a.len() - 1 {
                assert(a.drop_last()[t] == x);
                let u = choose|u: int| 0 <= u < w.len() && w[u] == x;
                if !b.contains(a.last()) {
                    assert(without(a, b)[u] == x);
                }
            } else {
                assert(without(a, b) == w.push(a.last()));
                assert(without(a, b)[w.len() as int] == x);
            }
        }
        if without(a, b).contains(x) {
            lemma_without_sub(a, b, x);
            if !b.contains(a.last()) && x == a.last() {
            } else if !b.contains(a.last()) {
                let u = choose|u: int| 0 <= u < without(a, b).len() && without(a, b)[u] == x;
                assert(without(a, b) == w.push(a.last()));
                assert(w.contains(x));
            }
        }
    }
}

/// When the greedy step contracts a pair sharing an index, the new tensor
/// holds exactly the indices that belong to one side only, its size is the
/// product of their sizes, and that size is the step's cost, no more than the
/// cost of any other pair that shares an index.
pub proof fn lemma_greedy_shared_step(rem: Seq<(Seq<char>, Seq<Seq<char>>, int)>, sizes: Seq<(Seq<char>, int)>, k: nat)
    requires
        exists|i: int, j: int| best_pair(rem, sizes, i, j),
    ensures
        ({
            let nx = greedy_next(rem, sizes, k);
            let made = nx.0.last();
            &&& nx.0.len() == rem.len() - 1
            &&& made.0 == r_name(k) && nx.1.2 == r_name(k)
            &&& made.2 == nx.1.3
            &&& nx.1.3 == product(made.1, sizes)
            &&& exists|i: int, j: int| #![trigger rem[i], rem[j]]
                0 <= i < j < rem.len() && shares(rem[i].1, rem[j].1) && nx.1.0 == rem[i].0 && nx.1.1 == rem[j].0
                && forall|x: Seq<char>| #[trigger] made.1.contains(x) <==> (rem[i].1.contains(x) != rem[j].1.contains(x))
            &&& forall|a: int, b: int| #[trigger] candidate(rem, sizes, a, b) ==> pair_cost(rem, sizes, a, b) >= nx.1.3
        }),
{
    let (i, j) = choose|i: int, j: int| best_pair(rem, sizes, i, j);
    let nx = greedy_next(rem, sizes, k);
    let made = nx.0.last();
    let sd = sym_diff(rem[i].1, rem[j].1);
    assert(made.1 == sd);
    assert forall|x: Seq<char>| #[trigger] made.1.contains(x) <==> (rem[i].1.contains(x) != rem[j].1.contains(x)) by {
        lemma_without_iff(rem[i].1, rem[j].1, x);
        lemma_without_iff(rem[j].1, rem[i].1, x);
        let w1 = without(rem[i].1, rem[j].1);
        let w2 = without(rem[j].1, rem[i].1);
        if sd.contains(x) {
            let u = choose|u: int| 0 <= u < sd.len() && sd[u] == x;
            if u < w1.len() {
                assert(w1[u] == x);
            } else {
                assert(w2[u - w1.len()] == x);
            }
        }
        if w1.contains(x) {
            let u = choose|u: int| 0 <= u < w1.len() && w1[u] == x;
            assert(sd[u] == x);
        }
        if w2.contains(x) {
            let u = choose|u: int| 0 <= u < w2.len() && w2[u] == x;
            assert(sd[w1.len() + u] == x);
        }
    }
}

} // verus!
