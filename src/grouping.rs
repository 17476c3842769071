//! Grouping sorted keys into runs of at least a given size that never split
//! equal keys.
use vstd::prelude::*;
use crate::counts::{lemma_prefix_sum_push, prefix_sum, COUNT_MAX};
use crate::sorting::ascending;

verus! {

/// `v` lies above the lower bound `lo` (`None`: no bound).
pub open spec fn above(lo: Option<i64>, v: i64) -> bool {
    match lo {
        None => true,
        Some(l) => l < v,
    }
}

/// The number of keys of `s` in `(lo, hi]`.
pub open spec fn keys_in(s: Seq<i64>, lo: Option<i64>, hi: i64) -> nat
    decreases s.len(),
{
    if s.len() == 0 {
        0
    } else {
        keys_in(s.drop_last(), lo, hi) + if above(lo, s.last()) && s.last() <= hi { 1nat } else { 0nat }
    }
}

proof fn lemma_keys_in_remove(s: Seq<i64>, lo: Option<i64>, hi: i64, i: int)
    requires
        0 <= i < s.len(),
    ensures
        keys_in(s, lo, hi) == keys_in(s.remove(i), lo, hi) + if above(lo, s[i]) && s[i] <= hi { 1nat } else { 0nat },
    decreases s.len(),
{
    if i == s.len() - 1 {
        assert(s.remove(i) =~= s.drop_last());
    } else {
        lemma_keys_in_remove(s.drop_last(), lo, hi, i);
        assert(s.remove(i).drop_last() =~= s.drop_last().remove(i));
        assert(s.remove(i).last() == s.last());
    }
}

/// Reordering keys keeps how many lie in a range.
pub proof fn lemma_keys_in_perm(s1: Seq<i64>, s2: Seq<i64>, lo: Option<i64>, hi: i64)
    requires
        s1.to_multiset() == s2.to_multiset(),
    ensures
        keys_in(s1, lo, hi) == keys_in(s2, lo, hi),
    decreases s1.len(),
{
    broadcast use vstd::seq_lib::group_seq_properties;
    broadcast use vstd::multiset::group_multiset_axioms;
    if s1.len() == 0 {
        assert(s2.len() == s2.to_multiset().len());
    } else {
        let x = s1.last();
        assert(s1.contains(x)) by {
            assert(s1[s1.len() - 1] == x);
        }
        assert(s1.to_multiset().count(x) > 0);
        assert(s2.contains(x));
        let i = choose|i: int| 0 <= i < s2.len() && s2[i] == x;
        assert(s1.drop_last() =~= s1.remove(s1.len() - 1));
        assert(s1.drop_last().to_multiset() =~= s1.to_multiset().remove(x));
        assert(s2.remove(i).to_multiset() =~= s2.to_multiset().remove(x));
        lemma_keys_in_perm(s1.drop_last(), s2.remove(i), lo, hi);
        lemma_keys_in_remove(s2, lo, hi, i);
    }
}

/// Two ranges that hold the same keys of `s` count the same.
pub proof fn lemma_keys_in_same(s: Seq<i64>, lo1: Option<i64>, hi1: i64, lo2: Option<i64>, hi2: i64)
    requires
        forall|j: int| 0 <= j < s.len() ==> (above(lo1, #[trigger] s[j]) && s[j] <= hi1) == (above(lo2, s[j]) && s[j] <= hi2),
    ensures
        keys_in(s, lo1, hi1) == keys_in(s, lo2, hi2),
    decreases s.len(),
{
    if s.len() > 0 {
        let d = s.drop_last();
        assert forall|j: int| 0 <= j < d.len() implies (above(lo1, #[trigger] d[j]) && d[j] <= hi1) == (above(lo2, d[j]) && d[j] <= hi2) by {
            assert(d[j] == s[j]);
        }
        lemma_keys_in_same(d, lo1, hi1, lo2, hi2);
        assert(s.last() == s[s.len() - 1]);
    }
}

/// When exactly the positions `t0..t1` of `s` hold keys in `(lo, hi]`, that
/// many keys lie there.
proof fn lemma_keys_in_run(s: Seq<i64>, lo: Option<i64>, hi: i64, t0: int, t1: int)
    requires
        0 <= t0 <= t1,
        forall|j: int| 0 <= j < s.len() ==> (above(lo, #[trigger] s[j]) && s[j] <= hi) == (t0 <= j && j < t1),
    ensures
        keys_in(s, lo, hi) == (if t1 < s.len() { t1 } else { s.len() as int }) - (if t0 < s.len() { t0 } else { s.len() as int }),
    decreases s.len(),
{
    if s.len() > 0 {
        let d = s.drop_last();
        assert forall|j: int| 0 <= j < d.len() implies (above(lo, #[trigger] d[j]) && d[j] <= hi) == (t0 <= j && j < t1) by {
            assert(d[j] == s[j]);
        }
        lemma_keys_in_run(d, lo, hi, t0, t1);
        assert(s.last() == s[s.len() - 1]);
    }
}

/// A group that closes at `v` after positions `ap..a` of the ascending keys
/// `s` holds exactly the keys in `(lo, v]`.
proof fn lemma_close_counts(s: Seq<i64>, lo: Option<i64>, v: i64, ap: int, a: int)
    requires
        ascending(s),
        0 <= ap <= a <= s.len(),
        lo is None ==> ap == 0,
        lo is Some && ap > 0 ==> s[ap - 1] <= lo->Some_0,
        lo is Some && ap < s.len() ==> s[ap] > lo->Some_0,
        a > 0 ==> s[a - 1] <= v,
        a < s.len() ==> s[a] > v,
    ensures
        keys_in(s, lo, v) == a - ap,
{
    assert forall|j: int| 0 <= j < s.len() implies (above(lo, #[trigger] s[j]) && s[j] <= v) == (ap <= j && j < a) by {
        if j < ap {
            assert(s[j] <= s[ap - 1]);
        } else if j < a {
            if ap < s.len() && lo is Some {
                assert(s[ap] <= s[j]);
            }
            assert(s[j] <= s[a - 1]);
        } else {
            assert(s[a] <= s[j]);
        }
    }
    lemma_keys_in_run(s, lo, v, ap, a);
}

/// The number of keys of `s` in `(lo, v)`: those of a range that lie strictly
/// below its upper end `v`.
pub open spec fn keys_below(s: Seq<i64>, lo: Option<i64>, v: i64) -> nat {
    if v == i64::MIN {
        0
    } else {
        keys_in(s, lo, (v - 1) as i64)
    }
}

/// A group that closes at `v` after positions `ap..a` of the ascending keys
/// `s`, whose keys equal to `v` start at `gp`, holds `gp - ap` keys below `v`.
proof fn lemma_close_below(s: Seq<i64>, lo: Option<i64>, v: i64, ap: int, gp: int, a: int)
    requires
        ascending(s),
        0 <= ap <= gp <= a <= s.len(),
        lo is None ==> ap == 0,
        lo is Some && ap > 0 ==> s[ap - 1] <= lo->Some_0,
        lo is Some && ap < s.len() ==> s[ap] > lo->Some_0,
        gp > ap ==> s[gp - 1] < v,
        gp < a ==> s[gp] == v,
        a < s.len() ==> s[a] > v,
    ensures
        keys_below(s, lo, v) == gp - ap,
{
    if v != i64::MIN {
        let hi = (v - 1) as i64;
        assert forall|j: int| 0 <= j < s.len() implies (above(lo, #[trigger] s[j]) && s[j] <= hi) == (ap <= j && j < gp) by {
            if j < ap {
                assert(s[j] <= s[ap - 1]);
            } else if j < gp {
                if lo is Some {
                    assert(s[ap] <= s[j]);
                }
                assert(s[j] <= s[gp - 1]);
            } else if j < a {
                assert(s[gp] <= s[j]);
            } else {
                assert(s[a] <= s[j]);
            }
        }
        lemma_keys_in_run(s, lo, hi, ap, gp);
    } else if gp > ap {
        assert(s[gp - 1] < i64::MIN);
    }
}

/// Each closed group `k` holds exactly the keys in `(prev_edge(k), edges[k]]`,
/// and fewer than `chunk` of them lie below `edges[k]`.
#[verifier::opaque]
pub open spec fn closed_groups(pkeys: Seq<i64>, nkeys: Seq<i64>, pc: Seq<u64>, nc: Seq<u64>, edges: Seq<i64>, chunk: int) -> bool {
    &&& pc.len() == edges.len()
    &&& nc.len() == edges.len()
    &&& forall|k: int| 0 <= k < edges.len() ==> #[trigger] pc[k] == keys_in(pkeys, prev_edge(edges, k), edges[k])
    &&& forall|k: int| 0 <= k < edges.len() ==> #[trigger] nc[k] == keys_in(nkeys, prev_edge(edges, k), edges[k])
    &&& forall|k: int|
        0 <= k < edges.len() ==> #[trigger] keys_below(pkeys, prev_edge(edges, k), edges[k]) + keys_below(nkeys, prev_edge(edges, k), edges[k])
            < chunk
}

proof fn lemma_closed_push(pkeys: Seq<i64>, nkeys: Seq<i64>, pc: Seq<u64>, nc: Seq<u64>, edges: Seq<i64>, chunk: int, p: u64, n: u64, v: i64)
    requires
        closed_groups(pkeys, nkeys, pc, nc, edges, chunk),
        p == keys_in(pkeys, prev_edge(edges, edges.len() as int), v),
        n == keys_in(nkeys, prev_edge(edges, edges.len() as int), v),
        keys_below(pkeys, prev_edge(edges, edges.len() as int), v) + keys_below(nkeys, prev_edge(edges, edges.len() as int), v) < chunk,
    ensures
        closed_groups(pkeys, nkeys, pc.push(p), nc.push(n), edges.push(v), chunk),
{
    reveal(closed_groups);
    let e2 = edges.push(v);
    assert forall|k: int| 0 <= k < e2.len() implies #[trigger] pc.push(p)[k] == keys_in(pkeys, prev_edge(e2, k), e2[k]) by {
        if k < edges.len() {
            assert(pc[k] == keys_in(pkeys, prev_edge(edges, k), edges[k]));
            assert(prev_edge(e2, k) == prev_edge(edges, k));
        } else {
            assert(prev_edge(e2, k) == prev_edge(edges, edges.len() as int));
        }
    }
    assert forall|k: int| 0 <= k < e2.len() implies #[trigger] nc.push(n)[k] == keys_in(nkeys, prev_edge(e2, k), e2[k]) by {
        if k < edges.len() {
            assert(nc[k] == keys_in(nkeys, prev_edge(edges, k), edges[k]));
            assert(prev_edge(e2, k) == prev_edge(edges, k));
        } else {
            assert(prev_edge(e2, k) == prev_edge(edges, edges.len() as int));
        }
    }
    assert forall|k: int| 0 <= k < e2.len() implies #[trigger] keys_below(pkeys, prev_edge(e2, k), e2[k]) + keys_below(nkeys, prev_edge(e2, k), e2[k])
        < chunk by {
        if k < edges.len() {
            assert(keys_below(pkeys, prev_edge(edges, k), edges[k]) + keys_below(nkeys, prev_edge(edges, k), edges[k]) < chunk);
            assert(prev_edge(e2, k) == prev_edge(edges, k));
        } else {
            assert(prev_edge(e2, k) == prev_edge(edges, edges.len() as int));
        }
    }
}

/// Of the open group, which spans positions `a - cp..a` of the positives and
/// `b - cn..b` of the negatives, the keys equal to `last` start at `gp` and
/// `gn`, and fewer than `chunk` keys lie before them.
#[verifier::opaque]
spec fn run_ok(pkeys: Seq<i64>, nkeys: Seq<i64>, a: int, b: int, cp: int, cn: int, gp: int, gn: int, last: int, chunk: int) -> bool {
    cp + cn > 0 ==> {
        &&& a - cp <= gp <= a && b - cn <= gn <= b
        &&& (gp - (a - cp)) + (gn - (b - cn)) < chunk
        &&& (gp < a ==> pkeys[gp] == last)
        &&& (gn < b ==> nkeys[gn] == last)
        &&& (gp > a - cp ==> pkeys[gp - 1] < last)
        &&& (gn > b - cn ==> nkeys[gn - 1] < last)
    }
}

/// Taking the smallest head `v` keeps `run_ok`: a new run starts where the
/// value changes, which happens only while the group is below `chunk`.
proof fn lemma_run_take(
    pkeys: Seq<i64>, nkeys: Seq<i64>, a0: int, b0: int, cp0: int, cn0: int, gp0: int, gn0: int, last0: int, chunk: int,
    take_pos: bool, v: i64,
) -> (g: (int, int))
    requires
        ascending(pkeys),
        ascending(nkeys),
        chunk >= 1,
        0 <= cp0 <= a0 <= pkeys.len(),
        0 <= cn0 <= b0 <= nkeys.len(),
        run_ok(pkeys, nkeys, a0, b0, cp0, cn0, gp0, gn0, last0, chunk),
        take_pos ==> a0 < pkeys.len() && pkeys[a0] == v && (b0 < nkeys.len() ==> pkeys[a0] <= nkeys[b0]),
        !take_pos ==> b0 < nkeys.len() && nkeys[b0] == v && (a0 < pkeys.len() ==> pkeys[a0] > nkeys[b0]),
        a0 + b0 > 0 ==> (a0 < pkeys.len() ==> pkeys[a0] >= last0) && (b0 < nkeys.len() ==> nkeys[b0] >= last0),
        a0 > 0 ==> pkeys[a0 - 1] <= last0,
        b0 > 0 ==> nkeys[b0 - 1] <= last0,
        cp0 + cn0 >= chunk && (a0 < pkeys.len() || b0 < nkeys.len()) ==> ((a0 < pkeys.len() && pkeys[a0] == last0) || (b0 < nkeys.len()
            && nkeys[b0] == last0)),
        cp0 + cn0 > 0 ==> a0 + b0 > 0,
    ensures
        run_ok(
            pkeys, nkeys, if take_pos { a0 + 1 } else { a0 }, if take_pos { b0 } else { b0 + 1 },
            if take_pos { cp0 + 1 } else { cp0 }, if take_pos { cn0 } else { cn0 + 1 }, g.0, g.1, v as int, chunk,
        ),
{
    reveal(run_ok);
    if cp0 + cn0 == 0 || v != last0 {
        if cp0 + cn0 > 0 && cp0 + cn0 >= chunk {
            if a0 < pkeys.len() && pkeys[a0] == last0 {
                assert(v <= pkeys[a0]);
            } else {
                assert(v <= nkeys[b0]);
            }
        }
        (a0, b0)
    } else {
        if take_pos && gp0 == a0 {
            assert(pkeys[gp0] == v);
        }
        if !take_pos && gn0 == b0 {
            assert(nkeys[gn0] == v);
        }
        (gp0, gn0)
    }
}

/// At a close the open group holds fewer than `chunk` keys below `v`.
proof fn lemma_run_close(
    pkeys: Seq<i64>, nkeys: Seq<i64>, lo: Option<i64>, v: i64, a: int, b: int, cp: int, cn: int, gp: int, gn: int, chunk: int,
)
    requires
        ascending(pkeys),
        ascending(nkeys),
        run_ok(pkeys, nkeys, a, b, cp, cn, gp, gn, v as int, chunk),
        cp + cn > 0,
        0 <= cp <= a <= pkeys.len(),
        0 <= cn <= b <= nkeys.len(),
        lo is None ==> a - cp == 0 && b - cn == 0,
        lo is Some && a - cp > 0 ==> pkeys[a - cp - 1] <= lo->Some_0,
        lo is Some && a - cp < pkeys.len() ==> pkeys[a - cp] > lo->Some_0,
        lo is Some && b - cn > 0 ==> nkeys[b - cn - 1] <= lo->Some_0,
        lo is Some && b - cn < nkeys.len() ==> nkeys[b - cn] > lo->Some_0,
        a < pkeys.len() ==> pkeys[a] > v,
        b < nkeys.len() ==> nkeys[b] > v,
    ensures
        keys_below(pkeys, lo, v) + keys_below(nkeys, lo, v) < chunk,
{
    reveal(run_ok);
    lemma_close_below(pkeys, lo, v, a - cp, gp, a);
    lemma_close_below(nkeys, lo, v, b - cn, gn, b);
}

/// The lower bound of group `k`: the edge before it, none for the first.
pub open spec fn prev_edge(edges: Seq<i64>, k: int) -> Option<i64> {
    if k <= 0 {
        None
    } else {
        Some(edges[k - 1])
    }
}

/// Walks the ascending keys of the positives (`pkeys`) and of the negatives
/// (`nkeys`) in merged order and closes a group once it holds at least
/// `chunk` keys and the next key differs, or at the end. Returns per group
/// its positives, its negatives and its last key.
#[verifier::rlimit(100)]
#[verifier::spinoff_prover]
pub fn group_sorted(pkeys: &Vec<i64>, nkeys: &Vec<i64>, chunk: u64) -> (r: (Vec<u64>, Vec<u64>, Vec<i64>))
    requires
        ascending(pkeys@),
        ascending(nkeys@),
        pkeys@.len() + nkeys@.len() < COUNT_MAX,
        chunk >= 1,
    ensures
        r.0@.len() == r.2@.len(),
        r.1@.len() == r.2@.len(),
        prefix_sum(r.0@, r.0@.len() as int) == pkeys@.len(),
        prefix_sum(r.1@, r.1@.len() as int) == nkeys@.len(),
        forall|k: int| 0 <= k < r.2@.len() ==> #[trigger] r.0@[k] + r.1@[k] >= 1,
        forall|k1: int, k2: int| 0 <= k1 < k2 < r.2@.len() ==> #[trigger] r.2@[k1] < #[trigger] r.2@[k2],
        forall|k: int| 0 <= k < r.2@.len() ==> pkeys@.contains(#[trigger] r.2@[k]) || nkeys@.contains(r.2@[k]),
        (r.2@.len() - 1) * chunk <= pkeys@.len() + nkeys@.len(),
        chunk == 1 ==> forall|j: int| 0 <= j < pkeys@.len() ==> r.2@.contains(#[trigger] pkeys@[j]),
        chunk == 1 ==> forall|j: int| 0 <= j < nkeys@.len() ==> r.2@.contains(#[trigger] nkeys@[j]),
        forall|k: int| 0 <= k < r.2@.len() ==> #[trigger] r.0@[k] == keys_in(pkeys@, prev_edge(r.2@, k), r.2@[k]),
        forall|k: int| 0 <= k < r.2@.len() ==> #[trigger] r.1@[k] == keys_in(nkeys@, prev_edge(r.2@, k), r.2@[k]),
        r.2@.len() > 0 ==> forall|j: int| 0 <= j < pkeys@.len() ==> #[trigger] pkeys@[j] <= r.2@.last(),
        r.2@.len() > 0 ==> forall|j: int| 0 <= j < nkeys@.len() ==> #[trigger] nkeys@[j] <= r.2@.last(),
        pkeys@.len() + nkeys@.len() > 0 ==> r.2@.len() > 0,
        forall|k: int| 0 <= k < r.2@.len() - 1 ==> #[trigger] r.0@[k] + r.1@[k] >= chunk,
        r.2@.len() >= 1 ==> (r.2@.len() - 1) * chunk + 1 <= pkeys@.len() + nkeys@.len(),
        closed_groups(pkeys@, nkeys@, r.0@, r.1@, r.2@, chunk as int),
{
    let pk = pkeys.len();
    let nk = nkeys.len();
    let mut pos_counts: Vec<u64> = Vec::new();
    let mut neg_counts: Vec<u64> = Vec::new();
    let mut edges: Vec<i64> = Vec::new();
    proof {
        reveal(closed_groups);
        assert(closed_groups(pkeys@, nkeys@, pos_counts@, neg_counts@, edges@, chunk as int));
    }
    let mut a: usize = 0;
    let mut b: usize = 0;
    let mut curr_p: u64 = 0;
    let mut curr_n: u64 = 0;
    let ghost mut last: int = 0;
    let ghost mut gp: int = 0;
    let ghost mut gn: int = 0;
    proof {
        reveal(run_ok);
        assert(run_ok(pkeys@, nkeys@, 0, 0, 0, 0, gp, gn, last, chunk as int));
    }
    while a < pk || b < nk
        invariant
            pk == pkeys@.len(),
            nk == nkeys@.len(),
            pk + nk < COUNT_MAX,
            chunk >= 1,
            ascending(pkeys@),
            ascending(nkeys@),
            a <= pk,
            b <= nk,
            pos_counts@.len() == edges@.len(),
            neg_counts@.len() == edges@.len(),
            prefix_sum(pos_counts@, pos_counts@.len() as int) + curr_p == a,
            prefix_sum(neg_counts@, neg_counts@.len() as int) + curr_n == b,
            forall|k: int| 0 <= k < edges@.len() ==> #[trigger] pos_counts@[k] + neg_counts@[k] >= 1,
            forall|k1: int, k2: int| 0 <= k1 < k2 < edges@.len() ==> #[trigger] edges@[k1] < #[trigger] edges@[k2],
            edges@.len() > 0 ==> (a < pk ==> pkeys@[a as int] > edges@.last()),
            edges@.len() > 0 ==> (b < nk ==> nkeys@[b as int] > edges@.last()),
            curr_p + curr_n > 0 ==> (edges@.len() > 0 ==> last > edges@.last()),
            a + b > 0 ==> (a < pk ==> pkeys@[a as int] >= last),
            a + b > 0 ==> (b < nk ==> nkeys@[b as int] >= last),
            (a == pk && b == nk) ==> curr_p + curr_n == 0,
            (a < pk || b < nk) ==> edges@.len() * chunk <= a + b - (curr_p + curr_n),
            (edges@.len() - 1) * chunk <= a + b,
            forall|k: int| 0 <= k < edges@.len() ==> pkeys@.contains(#[trigger] edges@[k]) || nkeys@.contains(edges@[k]),
            a + b > 0 ==> (pkeys@.contains(last as i64) || nkeys@.contains(last as i64)),
            a + b > 0 ==> i64::MIN <= last <= i64::MAX,
            chunk == 1 ==> forall|j: int| 0 <= j < a ==> edges@.contains(#[trigger] pkeys@[j]) || (curr_p + curr_n > 0 && pkeys@[j] == last),
            chunk == 1 ==> forall|j: int| 0 <= j < b ==> edges@.contains(#[trigger] nkeys@[j]) || (curr_p + curr_n > 0 && nkeys@[j] == last),
            chunk == 1 && curr_p + curr_n > 0 ==> ((a < pk && pkeys@[a as int] == last) || (b < nk && nkeys@[b as int] == last)),
            curr_p <= a,
            curr_n <= b,
            edges@.len() == 0 ==> a == curr_p && b == curr_n,
            edges@.len() > 0 && a - curr_p > 0 ==> pkeys@[a - curr_p - 1] <= edges@.last(),
            edges@.len() > 0 && a - curr_p < pk ==> pkeys@[a - curr_p] > edges@.last(),
            edges@.len() > 0 && b - curr_n > 0 ==> nkeys@[b - curr_n - 1] <= edges@.last(),
            edges@.len() > 0 && b - curr_n < nk ==> nkeys@[b - curr_n] > edges@.last(),
            a > 0 ==> pkeys@[a - 1] <= last,
            b > 0 ==> nkeys@[b - 1] <= last,
            edges@.len() > 0 && curr_p + curr_n == 0 ==> last == edges@.last(),
            forall|k: int| 0 <= k < edges@.len() - 1 ==> #[trigger] pos_counts@[k] + neg_counts@[k] >= chunk,
            (a < pk || b < nk) ==> forall|k: int| 0 <= k < edges@.len() ==> #[trigger] pos_counts@[k] + neg_counts@[k] >= chunk,
            edges@.len() >= 1 ==> (edges@.len() - 1) * chunk + 1 <= a + b - (curr_p + curr_n),
            closed_groups(pkeys@, nkeys@, pos_counts@, neg_counts@, edges@, chunk as int),
            run_ok(pkeys@, nkeys@, a as int, b as int, curr_p as int, curr_n as int, gp, gn, last, chunk as int),
            curr_p + curr_n > 0 ==> a + b > 0,
            curr_p + curr_n >= chunk && (a < pk || b < nk) ==> ((a < pk && pkeys@[a as int] == last) || (b < nk && nkeys@[b as int] == last)),
        decreases pk + nk - (a + b),
    {
        let take_pos = a < pk && (b >= nk || pkeys[a] <= nkeys[b]);
        let v = if take_pos {
            pkeys[a]
        } else {
            nkeys[b]
        };
        let ghost (a0, b0, last0, cp0, cn0) = (a as int, b as int, last, curr_p as int, curr_n as int);
        if take_pos {
            a = a + 1;
            curr_p = curr_p + 1;
        } else {
            b = b + 1;
            curr_n = curr_n + 1;
        }
        proof {
            let g = lemma_run_take(pkeys@, nkeys@, a0, b0, cp0, cn0, gp, gn, last0, chunk as int, take_pos, v);
            gp = g.0;
            gn = g.1;
            last = v as int;
            if take_pos {
                assert(pkeys@[a - 1] == v);
            } else {
                assert(nkeys@[b - 1] == v);
            }
        }
        let at_end = a == pk && b == nk;
        let next_differs = if at_end {
            false
        } else if a < pk && (b >= nk || pkeys[a] <= nkeys[b]) {
            pkeys[a] != v
        } else {
            nkeys[b] != v
        };
        if at_end || (curr_p + curr_n >= chunk && next_differs) {
            proof {
                let e = edges@.len() as int;
                assert((e + 1) * chunk == e * chunk + chunk) by (nonlinear_arith);
                assert(e * chunk == (e - 1) * chunk + chunk) by (nonlinear_arith);
                lemma_prefix_sum_push(pos_counts@, curr_p, pos_counts@.len() as int);
                lemma_prefix_sum_push(neg_counts@, curr_n, neg_counts@.len() as int);
            }
            let ghost old_edges = edges@;
            let ghost old_pc = pos_counts@;
            let ghost old_nc = neg_counts@;
            proof {
                let lo = prev_edge(edges@, edges@.len() as int);
                if a < pk {
                    assert(pkeys@[a as int] != v);
                }
                if b < nk {
                    assert(nkeys@[b as int] != v);
                }
                lemma_run_close(pkeys@, nkeys@, lo, v, a as int, b as int, curr_p as int, curr_n as int, gp, gn, chunk as int);
            }
            proof {
                let lo = prev_edge(edges@, edges@.len() as int);
                lemma_close_counts(pkeys@, lo, v, a - curr_p, a as int);
                lemma_close_counts(nkeys@, lo, v, b - curr_n, b as int);
            }
            pos_counts.push(curr_p);
            neg_counts.push(curr_n);
            edges.push(v);
            proof {
                assert(edges@[edges@.len() - 1] == v);
                assert forall|e: i64| old_edges.contains(e) implies edges@.contains(e) by {
                    let w = choose|w: int| 0 <= w < old_edges.len() && old_edges[w] == e;
                    assert(edges@[w] == e);
                }
                assert forall|k: int| 0 <= k < edges@.len() - 1 implies #[trigger] pos_counts@[k] + neg_counts@[k] >= chunk by {
                    assert(old_pc[k] + old_nc[k] >= chunk);
                }
                if a < pk || b < nk {
                    assert forall|k: int| 0 <= k < edges@.len() implies #[trigger] pos_counts@[k] + neg_counts@[k] >= chunk by {
                        if k < old_edges.len() {
                            assert(old_pc[k] + old_nc[k] >= chunk);
                        }
                    }
                }
                lemma_closed_push(pkeys@, nkeys@, old_pc, old_nc, old_edges, chunk as int, curr_p, curr_n, v);
            }
            curr_p = 0;
            curr_n = 0;
            proof {
                reveal(run_ok);
                assert(run_ok(pkeys@, nkeys@, a as int, b as int, 0, 0, gp, gn, last, chunk as int));
            }
        }
    }
    proof {
        if edges@.len() > 0 {
            assert forall|j: int| 0 <= j < pk implies #[trigger] pkeys@[j] <= edges@.last() by {
                assert(pkeys@[j] <= pkeys@[pk - 1]);
            }
            assert forall|j: int| 0 <= j < nk implies #[trigger] nkeys@[j] <= edges@.last() by {
                assert(nkeys@[j] <= nkeys@[nk - 1]);
            }
        }
    }
    proof {
        reveal(closed_groups);
        assert(forall|k: int| 0 <= k < edges@.len() ==> #[trigger] pos_counts@[k] == keys_in(pkeys@, prev_edge(edges@, k), edges@[k]));
        assert(forall|k: int| 0 <= k < edges@.len() ==> #[trigger] neg_counts@[k] == keys_in(nkeys@, prev_edge(edges@, k), edges@[k]));
    }
    (pos_counts, neg_counts, edges)
}

} // verus!
