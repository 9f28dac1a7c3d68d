//! Reachability over a finite directed graph given by adjacency lists.
use vstd::prelude::*;
use crate::adaptive::count_true;

verus! {

/// The node set `s` is closed under the edges `e`.
pub open spec fn closed_under(e: spec_fn(int, int) -> bool, s: Set<int>) -> bool {
    forall|a: int, b: int| s.contains(a) && #[trigger] e(a, b) ==> s.contains(b)
}

/// `j` is reachable from `i` (in zero or more steps): every node set that holds
/// `i` and is closed under the edges holds `j`.
#[verifier::opaque]
pub open spec fn reaches_via(e: spec_fn(int, int) -> bool, i: int, j: int) -> bool {
    forall|s: Set<int>| #[trigger] closed_under(e, s) && s.contains(i) ==> s.contains(j)
}

/// The adjacency lists `adj` describe exactly the edges `e` on nodes `0..adj.len()`.
pub open spec fn adj_matches(adj: Seq<Vec<usize>>, e: spec_fn(int, int) -> bool) -> bool {
    &&& forall|a: int, t: int| 0 <= a < adj.len() && 0 <= t < adj[a]@.len() ==> #[trigger] adj[a]@[t] < adj.len()
    &&& forall|a: int, b: int| #[trigger] e(a, b) ==> 0 <= a < adj.len() && 0 <= b < adj.len()
    &&& forall|a: int, b: int|
        0 <= a < adj.len() && 0 <= b < adj.len() ==> (#[trigger] e(a, b) <==> adj[a]@.contains(b as usize))
}

/// Every node reaches itself.
pub proof fn lemma_reaches_refl(e: spec_fn(int, int) -> bool, i: int)
    ensures
        reaches_via(e, i, i),
{
    reveal(reaches_via);
}

/// Reachability is transitive.
pub proof fn lemma_reaches_trans(e: spec_fn(int, int) -> bool, i: int, j: int, k: int)
    requires
        reaches_via(e, i, j),
        reaches_via(e, j, k),
    ensures
        reaches_via(e, i, k),
{
    reveal(reaches_via);
    assert forall|s: Set<int>| #[trigger] closed_under(e, s) && s.contains(i) implies s.contains(k) by {
        assert(s.contains(j));
    }
}

/// One edge extends a path.
proof fn lemma_reaches_step(e: spec_fn(int, int) -> bool, i: int, j: int, k: int)
    requires
        reaches_via(e, i, j),
        e(j, k),
    ensures
        reaches_via(e, i, k),
{
    reveal(reaches_via);
    assert forall|s: Set<int>| #[trigger] closed_under(e, s) && s.contains(i) implies s.contains(k) by {
        assert(s.contains(j));
    }
}

/// Counting `true` entries: at most the length.
pub proof fn lemma_count_le_len(s: Seq<bool>)
    ensures
        count_true(s) <= s.len(),
    decreases s.len(),
{
    if s.len() > 0 {
        lemma_count_le_len(s.drop_last());
    }
}

/// Setting one `false` entry to `true` adds one.
proof fn lemma_count_set(s: Seq<bool>, l: int)
    requires
        0 <= l < s.len(),
        !s[l],
    ensures
        count_true(s.update(l, true)) == count_true(s) + 1,
    decreases s.len(),
{
    let u = s.update(l, true);
    if l == s.len() - 1 {
        assert(u.drop_last() =~= s.drop_last());
    } else {
        assert(u.drop_last() =~= s.drop_last().update(l, true));
        lemma_count_set(s.drop_last(), l);
    }
}

/// A row that is pointwise below another counts no more; strictly less when the
/// other has a `true` where it has none.
pub proof fn lemma_count_mono(a: Seq<bool>, b: Seq<bool>)
    requires
        a.len() == b.len(),
        forall|x: int| 0 <= x < a.len() && #[trigger] a[x] ==> b[x],
    ensures
        count_true(a) <= count_true(b),
        (exists|x: int| 0 <= x < a.len() && b[x] && !a[x]) ==> count_true(a) < count_true(b),
    decreases a.len(),
{
    if a.len() > 0 {
        let a1 = a.drop_last();
        let b1 = b.drop_last();
        assert forall|x: int| 0 <= x < a1.len() && #[trigger] a1[x] implies b1[x] by {
            assert(a[x]);
        }
        lemma_count_mono(a1, b1);
        if exists|x: int| 0 <= x < a.len() && b[x] && !a[x] {
            let x = choose|x: int| 0 <= x < a.len() && b[x] && !a[x];
            if x < a.len() - 1 {
                assert(b1[x] && !a1[x]);
            }
        }
    }
}

/// The nodes reachable from `src`, as a row of booleans over `0..adj.len()`.
pub fn reach_row_chirho(adj: &Vec<Vec<usize>>, Ghost(e): Ghost<spec_fn(int, int) -> bool>, src: usize) -> (row: Vec<bool>)
    requires
        adj_matches(adj@, e),
        src < adj.len(),
    ensures
        row.len() == adj.len(),
        forall|j: int| 0 <= j < adj.len() ==> (row@[j] <==> reaches_via(e, src as int, j)),
{
    let n = adj.len();
    let mut row: Vec<bool> = Vec::new();
    let mut t: usize = 0;
    while t < n
        invariant
            t <= n,
            row.len() == t,
            forall|u: int| 0 <= u < t ==> !row@[u],
        decreases n - t,
    {
        row.push(false);
        t = t + 1;
    }
    proof {
        assert(count_true(row@) == 0) by {
            lemma_count_zero(row@, row@.len() as int);
            assert(row@.take(row@.len() as int) =~= row@);
        }
    }
    let ghost pre = row@;
    row.set(src, true);
    proof {
        lemma_count_set(pre, src as int);
        lemma_reaches_refl(e, src as int);
    }
    let mut stack: Vec<usize> = Vec::new();
    stack.push(src);
    proof {
        assert(stack@[0] == src);
        assert forall|a: int| 0 <= a < n && row@[a] implies a == src as int by {
            if a != src as int {
                assert(!pre[a]);
            }
        }
    }
    while stack.len() > 0
        invariant
            adj_matches(adj@, e),
            n == adj.len(),
            row.len() == n,
            src < n,
            row@[src as int],
            count_true(row@) <= n,
            forall|u: int| 0 <= u < stack.len() ==> #[trigger] stack@[u] < n && row@[stack@[u] as int],
            forall|j: int| 0 <= j < n && #[trigger] row@[j] ==> reaches_via(e, src as int, j),
            forall|a: int, b: int|
                0 <= a < n && row@[a] && !stack@.contains(a as usize) && #[trigger] e(a, b) ==> row@[b],
        decreases n - count_true(row@), stack.len(),
    {
        let ghost st0 = stack@;
        let x = stack.pop().unwrap();
        proof {
            assert(st0 =~= stack@.push(x));
            assert forall|a: int, b: int|
                0 <= a < n && a != x && row@[a] && !stack@.contains(a as usize) && #[trigger] e(a, b)
                    implies row@[b] by {
                if st0.contains(a as usize) {
                    let w = choose|w: int| 0 <= w < st0.len() && st0[w] == a as usize;
                    if w < stack.len() {
                        assert(stack@[w] == a as usize);
                    }
                }
            }
        }
        let ghost len0 = stack.len();
        let ghost cnt0 = count_true(row@);
        let mut u: usize = 0;
        let m = adj[x].len();
        while u < m
            invariant
                adj_matches(adj@, e),
                n == adj.len(),
                x < n,
                src < n,
                m == adj@[x as int]@.len(),
                u <= m,
                row.len() == n,
                row@[src as int],
                row@[x as int],
                count_true(row@) <= n,
                count_true(row@) + len0 == cnt0 + stack.len(),
                stack.len() >= len0,
                forall|w: int| 0 <= w < stack.len() ==> #[trigger] stack@[w] < n && row@[stack@[w] as int],
                forall|j: int| 0 <= j < n && #[trigger] row@[j] ==> reaches_via(e, src as int, j),
                forall|a: int, b: int|
                    0 <= a < n && a != x && row@[a] && !stack@.contains(a as usize) && #[trigger] e(a, b) ==> row@[b],
                forall|w: int| 0 <= w < u ==> row@[#[trigger] adj@[x as int]@[w] as int],
            decreases m - u,
        {
            let l = adj[x][u];
            proof {
                assert(adj@[x as int]@[u as int] < n);
            }
            if !row[l] {
                let ghost before = row@;
                let ghost st = stack@;
                row.set(l, true);
                stack.push(l);
                proof {
                    assert(row@ == before.update(l as int, true));
                    assert(row@[src as int]);
                    assert(row@[x as int]);
                    lemma_count_set(before, l as int);
                    lemma_count_le_len(row@);
                    assert(adj@[x as int]@.contains(l));
                    assert(e(x as int, l as int));
                    lemma_reaches_step(e, src as int, x as int, l as int);
                    assert forall|a: int, b: int|
                        0 <= a < n && a != x && row@[a] && !stack@.contains(a as usize) && #[trigger] e(a, b)
                            implies row@[b] by {
                        if a != l {
                            assert(!st.contains(a as usize)) by {
                                if st.contains(a as usize) {
                                    let w = choose|w: int| 0 <= w < st.len() && st[w] == a as usize;
                                    assert(stack@[w] == a as usize);
                                }
                            }
                            assert(before[a]);
                        } else {
                            assert(stack@[stack.len() - 1] == l);
                        }
                    }
                }
            }
            u = u + 1;
        }
        proof {
            assert forall|b: int| #[trigger] e(x as int, b) implies row@[b] by {
                assert(0 <= b < n);
                assert(adj@[x as int]@.contains(b as usize));
                let w = choose|w: int| 0 <= w < m && adj@[x as int]@[w] == b as usize;
                assert(row@[adj@[x as int]@[w] as int]);
            }
        }
    }
    proof {
        reveal(reaches_via);
        let s = Set::new(|j: int| 0 <= j < n && row@[j]);
        assert(closed_under(e, s));
        assert forall|j: int| 0 <= j < n && reaches_via(e, src as int, j) implies row@[j] by {
            assert(s.contains(src as int));
            assert(s.contains(j));
        }
    }
    row
}

proof fn lemma_count_zero(s: Seq<bool>, k: int)
    requires
        0 <= k <= s.len(),
        forall|u: int| 0 <= u < s.len() ==> !s[u],
    ensures
        count_true(s.take(k)) == 0,
    decreases k,
{
    if k > 0 {
        assert(s.take(k).drop_last() =~= s.take(k - 1));
        lemma_count_zero(s, k - 1);
    }
}

/// Number of `true` entries of a row.
pub fn count_row_chirho(row: &Vec<bool>) -> (r: usize)
    ensures
        r == count_true(row@),
{
    let mut c: usize = 0;
    let mut i: usize = 0;
    while i < row.len()
        invariant
            i <= row.len(),
            c == count_true(row@.take(i as int)),
            c <= i,
        decreases row.len() - i,
    {
        proof {
            assert(row@.take(i + 1).drop_last() =~= row@.take(i as int));
        }
        if row[i] {
            c = c + 1;
        }
        i = i + 1;
    }
    proof {
        assert(row@.take(row.len() as int) =~= row@);
    }
    c
}

/// `i` and `j` reach each other.
pub open spec fn mutual_via(e: spec_fn(int, int) -> bool, i: int, j: int) -> bool {
    reaches_via(e, i, j) && reaches_via(e, j, i)
}

/// Row `a` of `rows` is the set of nodes reachable from `a`, for every node `a` below `n`.
pub open spec fn rows_match(rows: Seq<Vec<bool>>, e: spec_fn(int, int) -> bool, n: int) -> bool {
    &&& rows.len() == n
    &&& forall|a: int| 0 <= a < n ==> (#[trigger] rows[a]).len() == n
    &&& forall|a: int, j: int| 0 <= a < n && 0 <= j < n ==> (#[trigger] rows[a]@[j] <==> reaches_via(e, a, j))
}

/// Some node has the number `s`.
pub open spec fn id_used(ids: Seq<usize>, s: int) -> bool {
    exists|j: int| 0 <= j < ids.len() && ids[j] == s
}

/// Some numbered node has the number `s`.
pub open spec fn id_assigned(ids: Seq<usize>, assigned: Seq<bool>, s: int) -> bool {
    exists|j: int| 0 <= j < assigned.len() && assigned[j] && ids[j] == s
}

/// Among the numbered nodes, two share a number exactly when they reach each
/// other, and a node reached both ways from a numbered node is numbered.
pub open spec fn classes_ok(e: spec_fn(int, int) -> bool, ids: Seq<usize>, assigned: Seq<bool>, n: int) -> bool {
    forall|j: int, x: int|
        0 <= j < n && 0 <= x < n && #[trigger] assigned[j] ==> (#[trigger] mutual_via(e, j, x) <==> (
        assigned[x] && ids[x] == ids[j]))
}

/// Nodes that reach each other have the same number of reachable nodes; a node
/// that reaches another without being reached back has more.
proof fn lemma_row_counts(rows: Seq<Vec<bool>>, e: spec_fn(int, int) -> bool, n: int, a: int, b: int)
    requires
        rows_match(rows, e, n),
        0 <= a < n,
        0 <= b < n,
        reaches_via(e, a, b),
    ensures
        count_true(rows[b]@) <= count_true(rows[a]@),
        !reaches_via(e, b, a) ==> count_true(rows[b]@) < count_true(rows[a]@),
        reaches_via(e, b, a) ==> count_true(rows[b]@) == count_true(rows[a]@),
{
    assert forall|x: int| 0 <= x < rows[b]@.len() && #[trigger] rows[b]@[x] implies rows[a]@[x] by {
        lemma_reaches_trans(e, a, b, x);
    }
    lemma_count_mono(rows[b]@, rows[a]@);
    lemma_reaches_refl(e, a);
    if !reaches_via(e, b, a) {
        assert(rows[a]@[a] && !rows[b]@[a]);
    }
    if reaches_via(e, b, a) {
        assert forall|x: int| 0 <= x < rows[a]@.len() && #[trigger] rows[a]@[x] implies rows[b]@[x] by {
            lemma_reaches_trans(e, b, a, x);
        }
        lemma_count_mono(rows[a]@, rows[b]@);
    }
}

/// Number the components of the graph: nodes get the same number exactly when
/// they reach each other, every number below the count is used, and a component
/// gets a smaller number than any component that reaches it.
pub fn assign_components_chirho(
    rows: &Vec<Vec<bool>>,
    cnts: &Vec<usize>,
    Ghost(e): Ghost<spec_fn(int, int) -> bool>,
) -> (r: (Vec<usize>, usize))
    requires
        rows_match(rows@, e, rows.len() as int),
        cnts.len() == rows.len(),
        forall|a: int| 0 <= a < rows.len() ==> cnts@[a] == count_true(#[trigger] rows@[a]@),
    ensures
        r.0.len() == rows.len(),
        r.1 <= rows.len(),
        forall|j: int| 0 <= j < rows.len() ==> #[trigger] r.0@[j] < r.1,
        forall|j: int, x: int|
            0 <= j < rows.len() && 0 <= x < rows.len() ==> (mutual_via(e, j, x) <==> #[trigger] r.0@[j]
                == #[trigger] r.0@[x]),
        forall|s: int| 0 <= s < r.1 ==> #[trigger] id_used(r.0@, s),
        forall|a: int, b: int|
            0 <= a < rows.len() && 0 <= b < rows.len() && reaches_via(e, a, b) && !reaches_via(e, b, a)
                ==> #[trigger] r.0@[b] < #[trigger] r.0@[a],
{
    let n = rows.len();
    let mut ids: Vec<usize> = Vec::new();
    let mut assigned: Vec<bool> = Vec::new();
    let mut t: usize = 0;
    while t < n
        invariant
            t <= n,
            ids.len() == t,
            assigned.len() == t,
            forall|u: int| 0 <= u < t ==> !assigned@[u],
        decreases n - t,
    {
        ids.push(0);
        assigned.push(false);
        t = t + 1;
    }
    proof {
        assert(count_true(assigned@) == 0) by {
            lemma_count_zero(assigned@, n as int);
            assert(assigned@.take(n as int) =~= assigned@);
        }
        assert forall|j: int| 0 <= j < n implies 1 <= #[trigger] cnts@[j] <= n by {
            lemma_reaches_refl(e, j);
            assert(rows@[j]@[j]);
            lemma_count_mono(Seq::new(n as nat, |x: int| false), rows@[j]@);
            assert(Seq::new(n as nat, |x: int| false)[j] == false);
            lemma_count_zero(Seq::new(n as nat, |x: int| false), n as int);
            assert(Seq::new(n as nat, |x: int| false).take(n as int) =~= Seq::new(n as nat, |x: int| false));
            lemma_count_le_len(rows@[j]@);
        }
    }
    let mut m: usize = 0;
    let mut lv: usize = 0;
    while lv < n
        invariant
            n == rows.len(),
            rows_match(rows@, e, n as int),
            cnts.len() == n,
            forall|a: int| 0 <= a < n ==> cnts@[a] == count_true(#[trigger] rows@[a]@),
            forall|a: int| 0 <= a < n ==> 1 <= #[trigger] cnts@[a] <= n,
            lv <= n,
            ids.len() == n,
            assigned.len() == n,
            m <= count_true(assigned@) <= n,
            forall|j: int| 0 <= j < n && #[trigger] assigned@[j] ==> ids@[j] < m,
            classes_ok(e, ids@, assigned@, n as int),
            forall|s: int| 0 <= s < m ==> #[trigger] id_assigned(ids@, assigned@, s),
            forall|a: int, b: int|
                0 <= a < n && 0 <= b < n && #[trigger] assigned@[a] && #[trigger] assigned@[b] && cnts@[a]
                    < cnts@[b] ==> ids@[a] < ids@[b],
            forall|j: int| 0 <= j < n ==> (#[trigger] assigned@[j] <==> cnts@[j] <= lv),
        decreases n - lv,
    {
        let mut i: usize = 0;
        while i < n
            invariant
                n == rows.len(),
                rows_match(rows@, e, n as int),
                cnts.len() == n,
                forall|a: int| 0 <= a < n ==> cnts@[a] == count_true(#[trigger] rows@[a]@),
                forall|a: int| 0 <= a < n ==> 1 <= #[trigger] cnts@[a] <= n,
                lv < n,
                i <= n,
                ids.len() == n,
                assigned.len() == n,
                m <= count_true(assigned@) <= n,
                forall|j: int| 0 <= j < n && #[trigger] assigned@[j] ==> ids@[j] < m,
                classes_ok(e, ids@, assigned@, n as int),
                forall|s: int| 0 <= s < m ==> #[trigger] id_assigned(ids@, assigned@, s),
                forall|a: int, b: int|
                    0 <= a < n && 0 <= b < n && #[trigger] assigned@[a] && #[trigger] assigned@[b] && cnts@[a]
                        < cnts@[b] ==> ids@[a] < ids@[b],
                forall|j: int| 0 <= j < n && #[trigger] assigned@[j] ==> cnts@[j] <= lv + 1,
                forall|j: int| 0 <= j < n && cnts@[j] <= lv ==> #[trigger] assigned@[j],
                forall|j: int| 0 <= j < i && cnts@[j] == lv + 1 ==> #[trigger] assigned@[j],
            decreases n - i,
        {
            if !assigned[i] && cnts[i] == lv + 1 {
                let ghost a0 = assigned@;
                let ghost i0 = ids@;
                let mut j: usize = 0;
                while j < n
                    invariant
                        n == rows.len(),
                        rows_match(rows@, e, n as int),
                        i < n,
                        j <= n,
                        ids.len() == n,
                        assigned.len() == n,
                        a0.len() == n,
                        i0.len() == n,
                        forall|x: int|
                            0 <= x < n ==> #[trigger] assigned@[x] == if x < j && mutual_via(e, i as int, x) {
                                true
                            } else {
                                a0[x]
                            },
                        forall|x: int|
                            0 <= x < n ==> #[trigger] ids@[x] == if x < j && mutual_via(e, i as int, x) {
                                m as int
                            } else {
                                i0[x] as int
                            },
                    decreases n - j,
                {
                    if rows[i][j] && rows[j][i] {
                        assigned.set(j, true);
                        ids.set(j, m);
                    }
                    j = j + 1;
                }
                proof {
                    let ii = i as int;
                    lemma_reaches_refl(e, ii);
                    assert(mutual_via(e, ii, ii));
                    // no member was numbered before
                    assert forall|x: int| 0 <= x < n && mutual_via(e, ii, x) implies !a0[x] by {
                        if a0[x] {
                            assert(mutual_via(e, x, ii));
                        }
                    }
                    // members share the level of `i`
                    assert forall|x: int| 0 <= x < n && mutual_via(e, ii, x) implies cnts@[x] == cnts@[ii] by {
                        lemma_row_counts(rows@, e, n as int, ii, x);
                    }
                    assert forall|x: int| 0 <= x < n && #[trigger] a0[x] implies assigned@[x] && ids@[x] == i0[x] by {
                        if mutual_via(e, ii, x) {
                            assert(!a0[x]);
                        }
                    }
                    lemma_count_mono(a0, assigned@);
                    assert(assigned@[ii] && !a0[ii]);
                    lemma_count_le_len(assigned@);
                    assert forall|jj: int, x: int|
                        0 <= jj < n && 0 <= x < n && #[trigger] assigned@[jj] implies (#[trigger] mutual_via(e, jj, x) <==> (
                        assigned@[x] && ids@[x] == ids@[jj])) by {
                        if mutual_via(e, ii, jj) {
                            if mutual_via(e, jj, x) {
                                lemma_reaches_trans(e, ii, jj, x);
                                lemma_reaches_trans(e, x, jj, ii);
                            }
                            if assigned@[x] && ids@[x] == ids@[jj] {
                                if !mutual_via(e, ii, x) {
                                    assert(a0[x]);
                                    assert(i0[x] < m);
                                }
                                lemma_reaches_trans(e, jj, ii, x);
                                lemma_reaches_trans(e, x, ii, jj);
                            }
                        } else {
                            assert(a0[jj]);
                            if mutual_via(e, ii, x) {
                                if mutual_via(e, jj, x) {
                                    lemma_reaches_trans(e, ii, x, jj);
                                    lemma_reaches_trans(e, jj, x, ii);
                                }
                                assert(i0[jj] < m);
                            } else {
                                assert(assigned@[x] == a0[x]);
                                assert(ids@[x] == i0[x]);
                            }
                        }
                    }
                    assert forall|s: int| 0 <= s < m + 1 implies #[trigger] id_assigned(ids@, assigned@, s) by {
                        if s < m {
                            assert(id_assigned(i0, a0, s));
                            let jj = choose|jj: int| 0 <= jj < a0.len() && a0[jj] && i0[jj] == s;
                            assert(assigned@[jj] && ids@[jj] == s);
                        } else {
                            assert(assigned@[ii] && ids@[ii] == s);
                        }
                    }
                    assert forall|a: int, b: int|
                        0 <= a < n && 0 <= b < n && #[trigger] assigned@[a] && #[trigger] assigned@[b] && cnts@[a]
                            < cnts@[b] implies ids@[a] < ids@[b] by {
                        if mutual_via(e, ii, b) && !mutual_via(e, ii, a) {
                            assert(a0[a]);
                        }
                        if mutual_via(e, ii, a) && !mutual_via(e, ii, b) {
                            assert(a0[b]);
                        }
                    }
                }
                m = m + 1;
            }
            i = i + 1;
        }
        lv = lv + 1;
    }
    proof {
        assert forall|jj: int| 0 <= jj < n implies #[trigger] assigned@[jj] by {}
        assert forall|jj: int| 0 <= jj < n implies #[trigger] ids@[jj] < m by {
            assert(assigned@[jj]);
        }
        assert forall|a: int, b: int|
            0 <= a < n && 0 <= b < n && reaches_via(e, a, b) && !reaches_via(e, b, a) implies #[trigger] ids@[b]
                < #[trigger] ids@[a] by {
            lemma_row_counts(rows@, e, n as int, a, b);
            assert(assigned@[a] && assigned@[b]);
        }
        assert forall|jj: int, x: int|
            0 <= jj < n && 0 <= x < n implies (mutual_via(e, jj, x) <==> #[trigger] ids@[jj] == #[trigger] ids@[x]) by {
            assert(assigned@[jj]);
            assert(assigned@[x]);
        }
        assert forall|s: int| 0 <= s < m implies #[trigger] id_used(ids@, s) by {
            assert(id_assigned(ids@, assigned@, s));
            let jj = choose|jj: int| 0 <= jj < assigned@.len() && assigned@[jj] && ids@[jj] == s;
            assert(ids@[jj] == s);
        }
    }
    (ids, m)
}

} // verus!
