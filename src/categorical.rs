//! Optimal binning of a categorical predictor.
use vstd::prelude::*;
use crate::counts::{prefix_sum, lemma_prefix_sum_push, COUNT_MAX};
use crate::grouping::{above, group_sorted, keys_in, lemma_keys_in_perm, lemma_keys_in_same, prev_edge};
use crate::input::{lemma_counts_bounded, lemma_some_present, lemma_split_counts, positives, present_neg, present_pos};
use crate::precategorical::{group_sum, lemma_codes_distinct_perm, lemma_group_sum_perm, PreCatBinStats};
use crate::sorting::{group_before, par_sort_keys, sort_groups, Group};
use crate::error::BinningError;
use crate::input::binary_targets;
use crate::optimizer::{
    bin_end, bin_start, bins_sized, feasible, gains_wf, lemma_splits_ascending, limits_of, optimize,
    size_limits, total_gain, valid_splits, optimum, SizeLimits, PCT_SCALE, PREBIN_MAX,
};
use std::collections::HashMap;

verus! {

/// The code that marks a missing category.
pub const MISSING_CODE: i32 = -1;

/// Rows whose code is present.
pub open spec fn code_present(x: Seq<i32>) -> spec_fn(int) -> bool {
    |i: int| x[i] != MISSING_CODE
}

/// Rows whose code is missing.
pub open spec fn code_missing(x: Seq<i32>) -> spec_fn(int) -> bool {
    |i: int| x[i] == MISSING_CODE
}

/// Rows `0..m` whose code is `c`, not the missing code, and whose target is
/// 1 (`pos`) or not (`!pos`).
pub open spec fn rows_with_code(x: Seq<i32>, y: Seq<i32>, c: i32, pos: bool, m: int) -> nat
    decreases m,
{
    if m <= 0 {
        0
    } else {
        rows_with_code(x, y, c, pos, m - 1) + if x[m - 1] == c && c != MISSING_CODE && ((y[m - 1] == 1) == pos) {
            1nat
        } else {
            0nat
        }
    }
}

/// The keys of `s` equal to `c`.
pub open spec fn code_count(s: Seq<i64>, c: i64) -> nat {
    keys_in(s, Some((c - 1) as i64), c)
}

/// Some row of `x` holds the category `c`, which is not the missing code.
pub open spec fn observed(x: Seq<i32>, c: i32) -> bool {
    c != MISSING_CODE && exists|i: int| 0 <= i < x.len() && #[trigger] x[i] == c
}

pub proof fn lemma_perm_contains<A>(s1: Seq<A>, s2: Seq<A>)
    requires
        s1.to_multiset() == s2.to_multiset(),
    ensures
        forall|e: A| #[trigger] s1.contains(e) == s2.contains(e),
{
    broadcast use vstd::seq_lib::group_seq_properties;
    assert forall|e: A| #[trigger] s1.contains(e) == s2.contains(e) by {
        assert(s1.contains(e) == (s1.to_multiset().count(e) > 0));
        assert(s2.contains(e) == (s2.to_multiset().count(e) > 0));
    }
}

/// Prebin `k` of `stats` as a category with its counts.
pub open spec fn group_at(stats: PreCatBinStats, k: int) -> Group {
    (stats.indices@[k] as i64, stats.counts.pos_in(k, k) as u64, stats.counts.neg_in(k, k) as u64)
}

proof fn lemma_sorted_in_range(before: Seq<i64>, after: Seq<i64>)
    requires
        before.to_multiset() == after.to_multiset(),
        forall|j: int| 0 <= j < before.len() ==> i32::MIN <= #[trigger] before[j] <= i32::MAX,
    ensures
        forall|j: int| 0 <= j < after.len() ==> i32::MIN <= #[trigger] after[j] <= i32::MAX,
{
    broadcast use vstd::seq_lib::group_seq_properties;
    assert forall|j: int| 0 <= j < after.len() implies i32::MIN <= #[trigger] after[j] <= i32::MAX by {
        assert(after.contains(after[j]));
        assert(after.to_multiset().count(after[j]) > 0);
        assert(before.contains(after[j]));
    }
}

/// Orders categories with their counts by ascending event rate, ties by
/// code, and lays them out as prebins.
#[verifier::spinoff_prover]
fn order_categories(codes: &Vec<i64>, pc: &Vec<u64>, nc: &Vec<u64>, missing_pos: u64, missing_neg: u64) -> (r: PreCatBinStats)
    requires
        codes@.len() == pc@.len(),
        codes@.len() == nc@.len(),
        forall|a: int, b: int| 0 <= a < b < codes@.len() ==> #[trigger] codes@[a] < #[trigger] codes@[b],
        forall|a: int| 0 <= a < codes@.len() ==> i32::MIN <= #[trigger] codes@[a] <= i32::MAX,
        forall|a: int| 0 <= a < codes@.len() ==> #[trigger] pc@[a] + nc@[a] >= 1,
        prefix_sum(pc@, pc@.len() as int) + prefix_sum(nc@, nc@.len() as int) + missing_pos + missing_neg < COUNT_MAX,
    ensures
        r.wf(),
        r.counts.total_pos == prefix_sum(pc@, pc@.len() as int),
        r.counts.total_neg == prefix_sum(nc@, nc@.len() as int),
        r.missing_pos == missing_pos,
        r.missing_neg == missing_neg,
        forall|k: int| 0 <= k < r.counts.len() ==> #[trigger] r.counts.count_in(k, k) >= 1,
        forall|k1: int, k2: int|
            0 <= k1 < k2 < r.counts.len() ==> !group_before(#[trigger] group_at(r, k2), #[trigger] group_at(r, k1)),
        forall|c: i32| #[trigger] r.indices@.contains(c) <==> codes@.contains(c as i64),
        forall|k: int, a: int|
            0 <= k < r.counts.len() && 0 <= a < codes@.len() && #[trigger] codes@[a] == #[trigger] r.indices@[k] as i64
                ==> r.counts.pos_in(k, k) == pc@[a] && r.counts.neg_in(k, k) == nc@[a],
{
    let m = codes.len();
    let mut groups: Vec<Group> = Vec::new();
    let mut k: usize = 0;
    while k < m
        invariant
            m == codes@.len(),
            pc@.len() == m,
            nc@.len() == m,
            k <= m,
            groups@.len() == k,
            forall|a: int| 0 <= a < k ==> #[trigger] groups@[a] == (codes@[a], pc@[a], nc@[a]),
            group_sum(groups@, true) == prefix_sum(pc@, k as int),
            group_sum(groups@, false) == prefix_sum(nc@, k as int),
        decreases m - k,
    {
        let g: Group = (codes[k], pc[k], nc[k]);
        proof {
            assert(groups@.push(g).drop_last() =~= groups@);
        }
        groups.push(g);
        k = k + 1;
    }
    let ghost g0 = groups@;
    proof {
        assert forall|a: int| 0 <= a < g0.len() implies (#[trigger] g0[a]).1 + g0[a].2 >= 1 by {
            assert(g0[a] == (codes@[a], pc@[a], nc@[a]));
        }
        assert forall|a: int, b: int| 0 <= a < g0.len() && 0 <= b < g0.len() && a != b implies #[trigger] g0[a].0 != #[trigger] g0[b].0 by {
            assert(g0[a] == (codes@[a], pc@[a], nc@[a]));
            assert(g0[b] == (codes@[b], pc@[b], nc@[b]));
            if a < b {
                assert(codes@[a] < codes@[b]);
            } else {
                assert(codes@[b] < codes@[a]);
            }
        }
    }
    sort_groups(&mut groups);
    let ghost g1 = groups@;
    proof {
        lemma_group_sum_perm(g0, g1, true);
        lemma_group_sum_perm(g0, g1, false);
        lemma_codes_distinct_perm(g0, g1);
        broadcast use vstd::seq_lib::group_seq_properties;
        assert forall|t: int| 0 <= t < g1.len() implies i32::MIN <= (#[trigger] g1[t]).0 <= i32::MAX && g1[t].1 + g1[t].2 >= 1 by {
            assert(g1.contains(g1[t]));
            assert(g1.to_multiset().count(g1[t]) > 0);
            assert(g0.contains(g1[t]));
            let a = choose|a: int| 0 <= a < g0.len() && g0[a] == g1[t];
            assert(g0[a] == (codes@[a], pc@[a], nc@[a]));
        }
    }
    let mut pos: Vec<u64> = Vec::new();
    let mut neg: Vec<u64> = Vec::new();
    let mut idx: Vec<i32> = Vec::new();
    let mut t: usize = 0;
    while t < m
        invariant
            g1 == groups@,
            g1.len() == m,
            t <= m,
            pos@.len() == t,
            neg@.len() == t,
            idx@.len() == t,
            forall|a: int| 0 <= a < m ==> i32::MIN <= (#[trigger] g1[a]).0 <= i32::MAX && g1[a].1 + g1[a].2 >= 1,
            forall|a: int| 0 <= a < t ==> #[trigger] idx@[a] as i64 == g1[a].0 && pos@[a] == g1[a].1 && neg@[a] == g1[a].2,
            prefix_sum(pos@, t as int) == group_sum(g1.subrange(0, t as int), true),
            prefix_sum(neg@, t as int) == group_sum(g1.subrange(0, t as int), false),
        decreases m - t,
    {
        let g = groups[t];
        proof {
            assert(i32::MIN <= g1[t as int].0 <= i32::MAX);
            lemma_prefix_sum_push(pos@, g.1, t as int);
            lemma_prefix_sum_push(neg@, g.2, t as int);
            assert(g1.subrange(0, t + 1).drop_last() =~= g1.subrange(0, t as int));
        }
        pos.push(g.1);
        neg.push(g.2);
        idx.push(g.0 as i32);
        t = t + 1;
    }
    proof {
        assert(g1.subrange(0, m as int) =~= g1);
    }
    let r = PreCatBinStats::new(&pos, &neg, idx, missing_pos, missing_neg);
    proof {
        assert forall|a: int| 0 <= a < m implies #[trigger] group_at(r, a) == g1[a] && r.counts.count_in(a, a) >= 1 by {
            assert(r.counts.cum_pos@[a] as int == prefix_sum(pos@, a + 1));
            assert(r.counts.cum_neg@[a] as int == prefix_sum(neg@, a + 1));
            assert(prefix_sum(pos@, a + 1) == prefix_sum(pos@, a) + pos@[a]);
            assert(prefix_sum(neg@, a + 1) == prefix_sum(neg@, a) + neg@[a]);
            if a > 0 {
                assert(r.counts.cum_pos@[a - 1] as int == prefix_sum(pos@, a));
                assert(r.counts.cum_neg@[a - 1] as int == prefix_sum(neg@, a));
            }
            assert(idx@[a] as i64 == g1[a].0);
        }
        assert forall|a: int| 0 <= a < r.counts.len() implies #[trigger] r.counts.count_in(a, a) >= 1 by {
            assert(group_at(r, a) == g1[a]);
            assert(g1[a].1 + g1[a].2 >= 1);
            r.counts.lemma_range(a, a);
        }
        assert forall|a: int, b: int| 0 <= a < r.indices@.len() && 0 <= b < r.indices@.len() && a != b implies r.indices@[a] != r.indices@[b] by {
            assert(idx@[a] as i64 == g1[a].0);
            assert(idx@[b] as i64 == g1[b].0);
            assert(g1[a].0 != g1[b].0);
        }
        assert(r.indices@.no_duplicates());
        assert forall|k1: int, k2: int| 0 <= k1 < k2 < r.counts.len() implies !group_before(#[trigger] group_at(r, k2), #[trigger] group_at(r, k1)) by {
            assert(group_at(r, k1) == g1[k1]);
            assert(group_at(r, k2) == g1[k2]);
        }
        lemma_perm_contains(g0, g1);
        assert forall|c: i32| #[trigger] r.indices@.contains(c) <==> codes@.contains(c as i64) by {
            if r.indices@.contains(c) {
                let t = choose|t: int| 0 <= t < r.indices@.len() && r.indices@[t] == c;
                assert(idx@[t] as i64 == g1[t].0);
                assert(g1.contains(g1[t]));
                assert(g0.contains(g1[t]));
                let a = choose|a: int| 0 <= a < g0.len() && g0[a] == g1[t];
                assert(g0[a] == (codes@[a], pc@[a], nc@[a]));
                assert(codes@[a] == c as i64);
            }
            if codes@.contains(c as i64) {
                let a = choose|a: int| 0 <= a < codes@.len() && codes@[a] == c as i64;
                assert(g0[a] == (codes@[a], pc@[a], nc@[a]));
                assert(g0.contains(g0[a]));
                let t = choose|t: int| 0 <= t < g1.len() && g1[t] == g0[a];
                assert(idx@[t] as i64 == g1[t].0);
                assert(r.indices@[t] == c);
            }
        }
        assert forall|k: int, a: int|
            0 <= k < r.counts.len() && 0 <= a < codes@.len() && #[trigger] codes@[a] == #[trigger] r.indices@[k] as i64
            implies r.counts.pos_in(k, k) == pc@[a] && r.counts.neg_in(k, k) == nc@[a] by {
            assert(group_at(r, k) == g1[k]);
            assert(g1.contains(g1[k]));
            assert(g0.contains(g1[k]));
            let a2 = choose|a2: int| 0 <= a2 < g0.len() && g0[a2] == g1[k];
            assert(g0[a2] == (codes@[a2], pc@[a2], nc@[a2]));
            assert(idx@[k] as i64 == g1[k].0);
            if a2 < a {
                assert(codes@[a2] < codes@[a]);
            } else if a < a2 {
                assert(codes@[a] < codes@[a2]);
            }
            r.counts.lemma_range(k, k);
        }
    }
    r
}

/// Counts positives and negatives per category, the missing code apart, and
/// orders the categories by ascending event rate, ties by code.
#[verifier::spinoff_prover]
pub fn prebin_codes(x: &Vec<i32>, y: &Vec<i32>) -> (r: PreCatBinStats)
    requires
        x@.len() == y@.len(),
        x@.len() < COUNT_MAX,
    ensures
        r.wf(),
        r.counts.total_pos == present_pos(code_present(x@), y@, x@.len() as int),
        r.counts.total_neg == present_neg(code_present(x@), y@, x@.len() as int),
        r.missing_pos == present_pos(code_missing(x@), y@, x@.len() as int),
        r.missing_neg == present_neg(code_missing(x@), y@, x@.len() as int),
        forall|k: int| 0 <= k < r.counts.len() ==> #[trigger] r.counts.count_in(k, k) >= 1,
        forall|k1: int, k2: int|
            0 <= k1 < k2 < r.counts.len() ==> !group_before(#[trigger] group_at(r, k2), #[trigger] group_at(r, k1)),
        forall|c: i32| #[trigger] r.indices@.contains(c) <==> observed(x@, c),
        forall|k: int|
            0 <= k < r.counts.len() ==> #[trigger] r.counts.pos_in(k, k) == rows_with_code(x@, y@, r.indices@[k], true, x@.len() as int)
                && r.counts.neg_in(k, k) == rows_with_code(x@, y@, r.indices@[k], false, x@.len() as int),
{
    let n = x.len();
    let ghost pr = code_present(x@);
    let ghost ms = code_missing(x@);
    let mut pkeys: Vec<i64> = Vec::new();
    let mut nkeys: Vec<i64> = Vec::new();
    let mut missing_pos: u64 = 0;
    let mut missing_neg: u64 = 0;
    let mut i: usize = 0;
    while i < n
        invariant
            n == x@.len(),
            n == y@.len(),
            n < COUNT_MAX,
            i <= n,
            pkeys@.len() == present_pos(pr, y@, i as int),
            nkeys@.len() == present_neg(pr, y@, i as int),
            missing_pos == present_pos(ms, y@, i as int),
            missing_neg == present_neg(ms, y@, i as int),
            pr == code_present(x@),
            ms == code_missing(x@),
            forall|j: int| 0 <= j < pkeys@.len() ==> i32::MIN <= #[trigger] pkeys@[j] <= i32::MAX,
            forall|j: int| 0 <= j < nkeys@.len() ==> i32::MIN <= #[trigger] nkeys@[j] <= i32::MAX,
            forall|j: int| 0 <= j < pkeys@.len() ==> observed(x@, #[trigger] pkeys@[j] as i32) && pkeys@[j] == pkeys@[j] as i32 as i64,
            forall|j: int| 0 <= j < nkeys@.len() ==> observed(x@, #[trigger] nkeys@[j] as i32) && nkeys@[j] == nkeys@[j] as i32 as i64,
            forall|j: int| 0 <= j < i && #[trigger] x@[j] != MISSING_CODE ==> pkeys@.contains(x@[j] as i64) || nkeys@.contains(x@[j] as i64),
            forall|c: i32| #[trigger] code_count(pkeys@, c as i64) == rows_with_code(x@, y@, c, true, i as int),
            forall|c: i32| #[trigger] code_count(nkeys@, c as i64) == rows_with_code(x@, y@, c, false, i as int),
        decreases n - i,
    {
        proof {
            lemma_counts_bounded(pr, y@, i as int);
            lemma_counts_bounded(ms, y@, i as int);
        }
        let v = x[i];
        let ghost old_p = pkeys@;
        let ghost old_n = nkeys@;
        if v == MISSING_CODE {
            if y[i] == 1 {
                missing_pos = missing_pos + 1;
            } else {
                missing_neg = missing_neg + 1;
            }
        } else if y[i] == 1 {
            pkeys.push(v as i64);
        } else {
            nkeys.push(v as i64);
        }
        proof {
            assert(x@[i as int] == v);
            if pkeys@.len() > old_p.len() {
                assert(pkeys@.drop_last() =~= old_p);
            } else {
                assert(pkeys@ =~= old_p);
            }
            if nkeys@.len() > old_n.len() {
                assert(nkeys@.drop_last() =~= old_n);
            } else {
                assert(nkeys@ =~= old_n);
            }
            assert forall|c: i32| #[trigger] code_count(pkeys@, c as i64) == rows_with_code(x@, y@, c, true, i + 1) by {
                assert(code_count(old_p, c as i64) == rows_with_code(x@, y@, c, true, i as int));
            }
            assert forall|c: i32| #[trigger] code_count(nkeys@, c as i64) == rows_with_code(x@, y@, c, false, i + 1) by {
                assert(code_count(old_n, c as i64) == rows_with_code(x@, y@, c, false, i as int));
            }
            assert forall|e: i64| old_p.contains(e) implies pkeys@.contains(e) by {
                let w = choose|w: int| 0 <= w < old_p.len() && old_p[w] == e;
                assert(pkeys@[w] == e);
            }
            assert forall|e: i64| old_n.contains(e) implies nkeys@.contains(e) by {
                let w = choose|w: int| 0 <= w < old_n.len() && old_n[w] == e;
                assert(nkeys@[w] == e);
            }
            if v != MISSING_CODE {
                if y@[i as int] == 1 {
                    assert(pkeys@[pkeys@.len() - 1] == v as i64);
                } else {
                    assert(nkeys@[nkeys@.len() - 1] == v as i64);
                }
            }
        }
        i = i + 1;
    }
    proof {
        assert forall|j: int| #[trigger] ms(j) == !pr(j) by {}
        crate::input::lemma_split_counts(pr, ms, y@, n as int);
    }
    let ghost p0 = pkeys@;
    let ghost n0 = nkeys@;
    par_sort_keys(&mut pkeys);
    par_sort_keys(&mut nkeys);
    proof {
        lemma_sorted_in_range(p0, pkeys@);
        lemma_sorted_in_range(n0, nkeys@);
        lemma_perm_contains(p0, pkeys@);
        lemma_perm_contains(n0, nkeys@);
        assert forall|c: i32| #[trigger] code_count(pkeys@, c as i64) == rows_with_code(x@, y@, c, true, n as int) by {
            assert(code_count(p0, c as i64) == rows_with_code(x@, y@, c, true, n as int));
            lemma_keys_in_perm(p0, pkeys@, Some((c as i64 - 1) as i64), c as i64);
        }
        assert forall|c: i32| #[trigger] code_count(nkeys@, c as i64) == rows_with_code(x@, y@, c, false, n as int) by {
            assert(code_count(n0, c as i64) == rows_with_code(x@, y@, c, false, n as int));
            lemma_keys_in_perm(n0, nkeys@, Some((c as i64 - 1) as i64), c as i64);
        }
    }
    let (pc, nc, codes) = group_sorted(&pkeys, &nkeys, 1);
    proof {
        assert forall|a: int| 0 <= a < codes@.len() implies #[trigger] pc@[a] == code_count(pkeys@, codes@[a]) && nc@[a] == code_count(nkeys@, codes@[a]) by {
            let e = codes@[a];
            let lo = prev_edge(codes@, a);
            assert(pkeys@.contains(e) || nkeys@.contains(e));
            assert(i32::MIN <= e <= i32::MAX);
            assert forall|j: int| 0 <= j < pkeys@.len() implies (above(lo, #[trigger] pkeys@[j]) && pkeys@[j] <= e) == (above(Some((e - 1) as i64), pkeys@[j]) && pkeys@[j] <= e) by {
                assert(codes@.contains(pkeys@[j]));
                let m = choose|m: int| 0 <= m < codes@.len() && codes@[m] == pkeys@[j];
                if m < a {
                    assert(codes@[m] < codes@[a]);
                    if m < a - 1 {
                        assert(codes@[m] < codes@[a - 1]);
                    }
                } else if m > a {
                    assert(codes@[a] < codes@[m]);
                }
            }
            assert forall|j: int| 0 <= j < nkeys@.len() implies (above(lo, #[trigger] nkeys@[j]) && nkeys@[j] <= e) == (above(Some((e - 1) as i64), nkeys@[j]) && nkeys@[j] <= e) by {
                assert(codes@.contains(nkeys@[j]));
                let m = choose|m: int| 0 <= m < codes@.len() && codes@[m] == nkeys@[j];
                if m < a {
                    assert(codes@[m] < codes@[a]);
                    if m < a - 1 {
                        assert(codes@[m] < codes@[a - 1]);
                    }
                } else if m > a {
                    assert(codes@[a] < codes@[m]);
                }
            }
            lemma_keys_in_same(pkeys@, lo, e, Some((e - 1) as i64), e);
            lemma_keys_in_same(nkeys@, lo, e, Some((e - 1) as i64), e);
        }
    }
    proof {
        assert forall|a: int| 0 <= a < codes@.len() implies i32::MIN <= #[trigger] codes@[a] <= i32::MAX by {
            assert(pkeys@.contains(codes@[a]) || nkeys@.contains(codes@[a]));
        }
    }
    let r = order_categories(&codes, &pc, &nc, missing_pos, missing_neg);
    proof {
        assert forall|c: i32| #[trigger] r.indices@.contains(c) <==> observed(x@, c) by {
            let e = c as i64;
            if r.indices@.contains(c) {
                assert(codes@.contains(e));
                let a = choose|a: int| 0 <= a < codes@.len() && codes@[a] == e;
                assert(pkeys@.contains(codes@[a]) || nkeys@.contains(codes@[a]));
                if pkeys@.contains(e) {
                    assert(p0.contains(e));
                    let j = choose|j: int| 0 <= j < p0.len() && p0[j] == e;
                    assert(observed(x@, p0[j] as i32));
                } else {
                    assert(n0.contains(e));
                    let j = choose|j: int| 0 <= j < n0.len() && n0[j] == e;
                    assert(observed(x@, n0[j] as i32));
                }
            }
            if observed(x@, c) {
                let i0 = choose|i0: int| 0 <= i0 < x@.len() && #[trigger] x@[i0] == c;
                assert(p0.contains(e) || n0.contains(e));
                if p0.contains(e) {
                    assert(pkeys@.contains(e));
                    let j = choose|j: int| 0 <= j < pkeys@.len() && pkeys@[j] == e;
                    assert(codes@.contains(pkeys@[j]));
                } else {
                    assert(nkeys@.contains(e));
                    let j = choose|j: int| 0 <= j < nkeys@.len() && nkeys@[j] == e;
                    assert(codes@.contains(nkeys@[j]));
                }
            }
        }
        assert forall|k: int| 0 <= k < r.counts.len() implies #[trigger] r.counts.pos_in(k, k) == rows_with_code(x@, y@, r.indices@[k], true, x@.len() as int)
            && r.counts.neg_in(k, k) == rows_with_code(x@, y@, r.indices@[k], false, x@.len() as int) by {
            let c = r.indices@[k];
            assert(r.indices@.contains(c));
            assert(codes@.contains(c as i64));
            let a = choose|a: int| 0 <= a < codes@.len() && codes@[a] == c as i64;
            assert(pc@[a] == code_count(pkeys@, codes@[a]));
            assert(code_count(pkeys@, c as i64) == rows_with_code(x@, y@, c, true, n as int));
            assert(code_count(nkeys@, c as i64) == rows_with_code(x@, y@, c, false, n as int));
        }
    }
    r
}

/// A fitted categorical bin: the categories it holds, in prebin order, and
/// their counts. The missing bin holds the missing code alone.
#[derive(Debug)]
pub struct CatBin {
    pub bin_id: usize,
    pub indices: Vec<i32>,
    pub pos: u64,
    pub neg: u64,
    pub is_missing: bool,
}

/// The number of ordinary bins: all but a trailing missing bin.
pub open spec fn cat_ordinary_len(bins: Seq<CatBin>) -> int {
    if bins.len() > 0 && bins.last().is_missing {
        bins.len() - 1
    } else {
        bins.len() as int
    }
}

/// Ordinary bin `b` is the run of prebins that splits `s` give it.
pub open spec fn cat_bin_matches(bin: CatBin, stats: PreCatBinStats, s: Seq<usize>, b: int) -> bool {
    let n = stats.counts.len();
    let i = bin_start(s, b);
    let j = bin_end(s, n, b);
    &&& bin.bin_id == b
    &&& !bin.is_missing
    &&& bin.indices@ == stats.indices@.subrange(i, j + 1)
    &&& bin.pos as int == stats.counts.pos_in(i, j)
    &&& bin.neg as int == stats.counts.neg_in(i, j)
}

/// The missing bin of `stats`, with id `k`.
pub open spec fn cat_missing_matches(bin: CatBin, stats: PreCatBinStats, k: int) -> bool {
    &&& bin.bin_id == k
    &&& bin.is_missing
    &&& bin.indices@ == seq![MISSING_CODE]
    &&& bin.pos == stats.missing_pos
    &&& bin.neg == stats.missing_neg
}

/// `bins` are the bins that splits `s` make of `stats`, followed by the
/// missing bin exactly when some code was missing.
pub open spec fn cat_bins_from(stats: PreCatBinStats, s: Seq<usize>, bins: Seq<CatBin>) -> bool {
    let k = s.len() + 1;
    let has_missing = stats.missing_pos + stats.missing_neg > 0;
    &&& bins.len() == if has_missing { k + 1 } else { k }
    &&& forall|b: int| 0 <= b < k ==> #[trigger] cat_bin_matches(bins[b], stats, s, b)
    &&& has_missing ==> cat_missing_matches(bins[k as int], stats, k as int)
}

/// The ordinary bins come first with dense ids, no category lies in two of
/// them, and a missing bin, if any, is last.
pub open spec fn cat_bins_wf(bins: Seq<CatBin>) -> bool {
    let k = cat_ordinary_len(bins);
    &&& k >= 1
    &&& forall|b: int| 0 <= b < k ==> !(#[trigger] bins[b]).is_missing && bins[b].bin_id == b
    &&& k < bins.len() ==> bins[k].bin_id == k
    &&& forall|b1: int, b2: int, c: i32|
        0 <= b1 < k && 0 <= b2 < k && #[trigger] bins[b1].indices@.contains(c) && #[trigger] bins[b2].indices@.contains(c) ==> b1 == b2
}

/// The ordinary bins split the categories of `stats` among them.
pub open spec fn cat_bins_cover(stats: PreCatBinStats, bins: Seq<CatBin>) -> bool {
    forall|c: i32|
        stats.indices@.contains(c) <==> exists|b: int| 0 <= b < cat_ordinary_len(bins) && (#[trigger] bins[b]).indices@.contains(c)
}

pub open spec fn cat_sum_pos(bins: Seq<CatBin>) -> int {
    prefix_sum(bins.map_values(|b: CatBin| b.pos), bins.len() as int)
}

pub open spec fn cat_sum_neg(bins: Seq<CatBin>) -> int {
    prefix_sum(bins.map_values(|b: CatBin| b.neg), bins.len() as int)
}

proof fn lemma_cat_push_sums(bins: Seq<CatBin>, x: CatBin)
    ensures
        cat_sum_pos(bins.push(x)) == cat_sum_pos(bins) + x.pos,
        cat_sum_neg(bins.push(x)) == cat_sum_neg(bins) + x.neg,
{
    let f = |b: CatBin| b.pos;
    let g = |b: CatBin| b.neg;
    assert(bins.push(x).map_values(f) =~= bins.map_values(f).push(x.pos));
    assert(bins.push(x).map_values(g) =~= bins.map_values(g).push(x.neg));
    lemma_prefix_sum_push(bins.map_values(f), x.pos, bins.len() as int);
    lemma_prefix_sum_push(bins.map_values(g), x.neg, bins.len() as int);
}

/// Each prebin lies in some bin of the splits.
proof fn lemma_find_bin(s: Seq<usize>, n: int, t: int, b: int) -> (r: int)
    requires
        valid_splits(s, n),
        0 <= b <= s.len(),
        bin_start(s, b) <= t < n,
    ensures
        b <= r <= s.len(),
        bin_start(s, r) <= t <= bin_end(s, n, r),
    decreases s.len() - b,
{
    if t <= bin_end(s, n, b) {
        b
    } else {
        lemma_find_bin(s, n, t, b + 1)
    }
}

proof fn lemma_cat_partition(stats: PreCatBinStats, s: Seq<usize>, bins: Seq<CatBin>)
    requires
        stats.wf(),
        valid_splits(s, stats.counts.len()),
        cat_bins_from(stats, s, bins),
        cat_ordinary_len(bins) == s.len() + 1,
    ensures
        cat_bins_cover(stats, bins),
        forall|b1: int, b2: int, c: i32|
            0 <= b1 < cat_ordinary_len(bins) && 0 <= b2 < cat_ordinary_len(bins) && #[trigger] bins[b1].indices@.contains(c)
                && #[trigger] bins[b2].indices@.contains(c) ==> b1 == b2,
{
    let n = stats.counts.len();
    let k = s.len() + 1;
    let idx = stats.indices@;
    lemma_splits_ascending(s, n);
    assert forall|b: int| 0 <= b < k implies bin_start(s, b) <= bin_end(s, n, b) && 0 <= bin_start(s, b) && bin_end(s, n, b) < n by {
        if 0 < b < s.len() {
            assert(s[b - 1] < s[b]);
        }
    }
    assert forall|c: i32| idx.contains(c) <==> exists|b: int| 0 <= b < k && (#[trigger] bins[b]).indices@.contains(c) by {
        if idx.contains(c) {
            let t = choose|t: int| 0 <= t < idx.len() && idx[t] == c;
            let b = lemma_find_bin(s, n, t, 0);
            assert(cat_bin_matches(bins[b], stats, s, b));
            assert(bins[b].indices@[t - bin_start(s, b)] == c);
            assert(bins[b].indices@.contains(c));
        }
        if exists|b: int| 0 <= b < k && (#[trigger] bins[b]).indices@.contains(c) {
            let b = choose|b: int| 0 <= b < k && (#[trigger] bins[b]).indices@.contains(c);
            assert(cat_bin_matches(bins[b], stats, s, b));
            let u = choose|u: int| 0 <= u < bins[b].indices@.len() && bins[b].indices@[u] == c;
            assert(idx[bin_start(s, b) + u] == c);
        }
    }
    assert forall|b1: int, b2: int, c: i32|
        0 <= b1 < k && 0 <= b2 < k && #[trigger] bins[b1].indices@.contains(c) && #[trigger] bins[b2].indices@.contains(c) implies b1 == b2 by {
        assert(cat_bin_matches(bins[b1], stats, s, b1));
        assert(cat_bin_matches(bins[b2], stats, s, b2));
        let u1 = choose|u: int| 0 <= u < bins[b1].indices@.len() && bins[b1].indices@[u] == c;
        let u2 = choose|u: int| 0 <= u < bins[b2].indices@.len() && bins[b2].indices@[u] == c;
        let t1 = bin_start(s, b1) + u1;
        let t2 = bin_start(s, b2) + u2;
        assert(idx[t1] == c && idx[t2] == c);
        if b1 < b2 {
            if b2 - 1 > b1 {
                assert(s[b1] < s[b2 - 1]);
            }
            assert(t1 < t2);
        } else if b2 < b1 {
            if b1 - 1 > b2 {
                assert(s[b2] < s[b1 - 1]);
            }
            assert(t2 < t1);
        }
    }
}

/// Builds the bins that splits `splits` make of the prebins of `stats`.
pub fn reconstruct_cat_bins(stats: &PreCatBinStats, splits: &Vec<usize>) -> (r: Vec<CatBin>)
    requires
        stats.wf(),
        valid_splits(splits@, stats.counts.len()),
        splits@.len() < stats.counts.len(),
    ensures
        cat_bins_from(*stats, splits@, r@),
        cat_bins_wf(r@),
        cat_bins_cover(*stats, r@),
        cat_ordinary_len(r@) == splits@.len() + 1,
        cat_sum_pos(r@) == stats.counts.total_pos + stats.missing_pos,
        cat_sum_neg(r@) == stats.counts.total_neg + stats.missing_neg,
{
    let n = stats.indices.len();
    let k = splits.len() + 1;
    let ghost s = splits@;
    proof {
        lemma_splits_ascending(s, n as int);
    }
    let mut bins: Vec<CatBin> = Vec::new();
    let mut start: usize = 0;
    let mut b: usize = 0;
    while b < k
        invariant
            stats.wf(),
            n == stats.counts.len(),
            n >= 1,
            s == splits@,
            valid_splits(s, n as int),
            forall|a1: int, a2: int| 0 <= a1 < a2 < s.len() ==> #[trigger] s[a1] < #[trigger] s[a2],
            k == s.len() + 1,
            b <= k,
            bins@.len() == b,
            b < k ==> start == bin_start(s, b as int),
            forall|a: int| 0 <= a < b ==> #[trigger] cat_bin_matches(bins@[a], *stats, s, a),
            cat_sum_pos(bins@) == stats.counts.cpos(if b == 0 { -1 } else { bin_end(s, n as int, b - 1) }),
            cat_sum_neg(bins@) == stats.counts.cneg(if b == 0 { -1 } else { bin_end(s, n as int, b - 1) }),
        decreases k - b,
    {
        let end = if b == k - 1 {
            n - 1
        } else {
            splits[b]
        };
        proof {
            if b > 0 && b < k - 1 {
                assert(s[b - 1] < s[b as int]);
            }
        }
        let (p, q) = stats.get_counts(start, end);
        let mut cats: Vec<i32> = Vec::new();
        let mut t: usize = start;
        while t <= end
            invariant
                start <= end < n,
                n == stats.indices@.len(),
                start <= t <= end + 1,
                cats@ == stats.indices@.subrange(start as int, t as int),
            decreases end + 1 - t,
        {
            cats.push(stats.indices[t]);
            t = t + 1;
            proof {
                assert(cats@ =~= stats.indices@.subrange(start as int, t as int));
            }
        }
        let bin = CatBin { bin_id: b, indices: cats, pos: p, neg: q, is_missing: false };
        proof {
            lemma_cat_push_sums(bins@, bin);
            assert(cat_bin_matches(bin, *stats, s, b as int));
        }
        bins.push(bin);
        start = end + 1;
        b = b + 1;
    }
    if stats.missing_pos + stats.missing_neg > 0 {
        let mut cats: Vec<i32> = Vec::new();
        cats.push(MISSING_CODE);
        let bin = CatBin { bin_id: k, indices: cats, pos: stats.missing_pos, neg: stats.missing_neg, is_missing: true };
        proof {
            lemma_cat_push_sums(bins@, bin);
            assert(bin.indices@ =~= seq![MISSING_CODE]);
        }
        bins.push(bin);
    }
    proof {
        let r = bins@;
        assert(cat_ordinary_len(r) == k) by {
            assert(cat_bin_matches(r[k - 1], *stats, s, k - 1));
        }
        assert(cat_bins_from(*stats, s, r));
        lemma_cat_partition(*stats, s, r);
        assert forall|b1: int| 0 <= b1 < k implies !(#[trigger] r[b1]).is_missing && r[b1].bin_id == b1 by {
            assert(cat_bin_matches(r[b1], *stats, s, b1));
        }
    }
    bins
}

/// Every ordinary bin holds between `lim.min_count` and `lim.max_count` samples.
pub open spec fn cat_bins_sized(bins: Seq<CatBin>, lim: SizeLimits) -> bool {
    forall|b: int|
        0 <= b < cat_ordinary_len(bins) ==> lim.min_count <= (#[trigger] bins[b]).pos + bins[b].neg <= lim.max_count
}

/// What a fit on `stats` yields: at most `max_bins` ordinary bins, each a
/// run of prebins in event-rate order, that split the observed categories
/// among them and meet the size limits (unless one bin is all that can be
/// had), plus the missing bin exactly when a code was missing; the counts add
/// up to the totals.
pub open spec fn cat_fit_ok(max_bins: int, lim: SizeLimits, stats: PreCatBinStats, bins: Seq<CatBin>) -> bool {
    let k = cat_ordinary_len(bins);
    &&& cat_bins_wf(bins)
    &&& cat_bins_cover(stats, bins)
    &&& k <= max_bins
    &&& cat_sum_pos(bins) == stats.counts.total_pos + stats.missing_pos
    &&& cat_sum_neg(bins) == stats.counts.total_neg + stats.missing_neg
    &&& (k < bins.len()) == (stats.missing_pos + stats.missing_neg > 0)
    &&& k < bins.len() ==> cat_missing_matches(bins[k], stats, k)
    &&& k == 1 || cat_bins_sized(bins, lim)
    &&& stats.counts.len() >= 1 ==> exists|s: Seq<usize>| valid_splits(s, stats.counts.len()) && #[trigger] cat_bins_from(stats, s, bins)
}

/// The bins come from a feasible partition of the prebins that no other
/// feasible partition into at most `max_bins` bins beats: none has more bins,
/// and none with as many has a larger total gain.
pub open spec fn cat_fit_optimal(stats: PreCatBinStats, g: Seq<Vec<i64>>, lim: SizeLimits, max_bins: int, bins: Seq<CatBin>) -> bool {
    let n = stats.counts.len();
    forall|s2: Seq<usize>|
        #[trigger] feasible(stats.counts, lim, s2, n) && s2.len() < max_bins ==> exists|s: Seq<usize>| {
            &&& #[trigger] cat_bins_from(stats, s, bins)
            &&& feasible(stats.counts, lim, s, n)
            &&& (s2.len() < s.len() || (s2.len() == s.len() && total_gain(g, s2, n) <= total_gain(g, s, n)))
        }
}

/// The table a fit on `stats` yields: the bins of the optimizer's splits (and
/// the missing bin), or, with no present code, one empty bin.
pub open spec fn cat_fit_table(stats: PreCatBinStats, g: Seq<Vec<i64>>, max_bins: int, lim: SizeLimits, bins: Seq<CatBin>) -> bool {
    if stats.counts.len() == 0 {
        let has_missing = stats.missing_pos + stats.missing_neg > 0;
        &&& bins.len() == if has_missing { 2int } else { 1int }
        &&& bins[0].bin_id == 0 && bins[0].indices@.len() == 0 && bins[0].pos == 0 && bins[0].neg == 0 && !bins[0].is_missing
        &&& has_missing ==> cat_missing_matches(bins[1], stats, 1)
    } else {
        cat_bins_from(stats, optimum(stats.counts, g, max_bins, lim, None).1, bins)
    }
}

/// Copying a table keeps what the fit states of it.
pub proof fn lemma_same_table(stats: PreCatBinStats, g: Seq<Vec<i64>>, max_bins: int, lim: SizeLimits, a: Seq<CatBin>, b: Seq<CatBin>)
    requires
        cat_bins_same(a, b),
        cat_fit_table(stats, g, max_bins, lim, b),
    ensures
        cat_fit_table(stats, g, max_bins, lim, a),
{
    assert forall|i: int| 0 <= i < a.len() implies #[trigger] cat_bin_same(a[i], b[i]) by {}
    if stats.counts.len() == 0 {
        assert(cat_bin_same(a[0], b[0]));
        if stats.missing_pos + stats.missing_neg > 0 {
            assert(cat_bin_same(a[1], b[1]));
        }
    } else {
        let s = optimum(stats.counts, g, max_bins, lim, None).1;
        assert forall|j: int| 0 <= j < s.len() + 1 implies #[trigger] cat_bin_matches(a[j], stats, s, j) by {
            assert(cat_bin_same(a[j], b[j]));
            assert(cat_bin_matches(b[j], stats, s, j));
        }
        if stats.missing_pos + stats.missing_neg > 0 {
            assert(cat_bin_same(a[s.len() + 1int], b[s.len() + 1int]));
        }
    }
}

/// The bin index a code maps to: the ordinary bin that holds it, else (the
/// missing code or one never seen) the missing bin, `None` where there is none.
pub open spec fn cat_index_ok(bins: Seq<CatBin>, v: i32, r: Option<usize>) -> bool {
    let k = cat_ordinary_len(bins);
    if v != MISSING_CODE && exists|b: int| 0 <= b < k && (#[trigger] bins[b]).indices@.contains(v) {
        r is Some && r->Some_0 < k && bins[r->Some_0 as int].indices@.contains(v)
    } else {
        r == if k < bins.len() { Some(k as usize) } else { None::<usize> }
    }
}

/// Transforming `x` against `bins` gives `r`.
pub open spec fn cat_transform_ok(bins: Seq<CatBin>, x: Seq<i32>, r: Seq<Option<usize>>) -> bool {
    &&& r.len() == x.len()
    &&& forall|i: int| 0 <= i < x.len() ==> cat_index_ok(bins, x[i], #[trigger] r[i])
}

/// Each code that an ordinary bin holds maps to that bin.
pub proof fn lemma_cat_transform_picks_holder(bins: Seq<CatBin>, x: Seq<i32>, r: Seq<Option<usize>>)
    requires
        cat_bins_wf(bins),
        cat_transform_ok(bins, x, r),
    ensures
        forall|i: int, b: int|
            0 <= i < x.len() && x[i] != MISSING_CODE && 0 <= b < cat_ordinary_len(bins) && #[trigger] bins[b].indices@.contains(#[trigger] x[i])
                ==> r[i] == Some(b as usize),
{
    assert forall|i: int, b: int|
        0 <= i < x.len() && x[i] != MISSING_CODE && 0 <= b < cat_ordinary_len(bins) && #[trigger] bins[b].indices@.contains(#[trigger] x[i])
        implies r[i] == Some(b as usize) by {
        assert(cat_index_ok(bins, x[i], r[i]));
        let bi = r[i]->Some_0 as int;
        assert(bins[bi].indices@.contains(x[i]));
    }
}

/// Same fields, same categories.
pub open spec fn cat_bin_same(a: CatBin, b: CatBin) -> bool {
    a.bin_id == b.bin_id && a.indices@ == b.indices@ && a.pos == b.pos && a.neg == b.neg && a.is_missing == b.is_missing
}

pub open spec fn cat_bins_same(a: Seq<CatBin>, b: Seq<CatBin>) -> bool {
    a.len() == b.len() && forall|i: int| 0 <= i < a.len() ==> #[trigger] cat_bin_same(a[i], b[i])
}

fn copy_cat_bin(b: &CatBin) -> (r: CatBin)
    ensures
        cat_bin_same(r, *b),
{
    let mut cats: Vec<i32> = Vec::new();
    let mut t: usize = 0;
    while t < b.indices.len()
        invariant
            t <= b.indices@.len(),
            cats@ == b.indices@.subrange(0, t as int),
        decreases b.indices@.len() - t,
    {
        cats.push(b.indices[t]);
        t = t + 1;
        proof {
            assert(cats@ =~= b.indices@.subrange(0, t as int));
        }
    }
    proof {
        assert(cats@ =~= b.indices@);
    }
    CatBin { bin_id: b.bin_id, indices: cats, pos: b.pos, neg: b.neg, is_missing: b.is_missing }
}

fn copy_cat_bins(v: &Vec<CatBin>) -> (r: Vec<CatBin>)
    ensures
        cat_bins_same(r@, v@),
{
    let mut r: Vec<CatBin> = Vec::new();
    let mut i: usize = 0;
    while i < v.len()
        invariant
            i <= v@.len(),
            r@.len() == i,
            forall|a: int| 0 <= a < i ==> #[trigger] cat_bin_same(r@[a], v@[a]),
        decreases v@.len() - i,
    {
        r.push(copy_cat_bin(&v[i]));
        i = i + 1;
    }
    r
}

/// The properties of fitted bins carry over to a copy.
pub proof fn lemma_same_bins(a: Seq<CatBin>, b: Seq<CatBin>)
    requires
        cat_bins_same(a, b),
    ensures
        cat_ordinary_len(a) == cat_ordinary_len(b),
        cat_bins_wf(a) == cat_bins_wf(b),
        forall|x: Seq<i32>, r: Seq<Option<usize>>| cat_transform_ok(a, x, r) == cat_transform_ok(b, x, r),
{
    if a.len() > 0 {
        assert(cat_bin_same(a[a.len() - 1], b[b.len() - 1]));
    }
    assert forall|i: int| 0 <= i < a.len() implies (#[trigger] a[i]).indices@ == b[i].indices@ && a[i].is_missing == b[i].is_missing && a[i].bin_id == b[i].bin_id by {
        assert(cat_bin_same(a[i], b[i]));
    }
    assert forall|i: int| 0 <= i < a.len() implies (#[trigger] b[i]).indices@ == a[i].indices@ && a[i].is_missing == b[i].is_missing && a[i].bin_id == b[i].bin_id by {
        assert(cat_bin_same(a[i], b[i]));
    }
    let k = cat_ordinary_len(a);
    if cat_bins_wf(a) {
        assert forall|b1: int, b2: int, c: i32|
            0 <= b1 < k && 0 <= b2 < k && #[trigger] b[b1].indices@.contains(c) && #[trigger] b[b2].indices@.contains(c) implies b1 == b2 by {
            assert(a[b1].indices@ == b[b1].indices@);
            assert(a[b2].indices@ == b[b2].indices@);
        }
    }
    if cat_bins_wf(b) {
        assert forall|b1: int, b2: int, c: i32|
            0 <= b1 < k && 0 <= b2 < k && #[trigger] a[b1].indices@.contains(c) && #[trigger] a[b2].indices@.contains(c) implies b1 == b2 by {
            assert(a[b1].indices@ == b[b1].indices@);
            assert(a[b2].indices@ == b[b2].indices@);
        }
    }
    assert forall|x: Seq<i32>, r: Seq<Option<usize>>| cat_transform_ok(a, x, r) == cat_transform_ok(b, x, r) by {
        assert forall|i: int| 0 <= i < x.len() implies cat_index_ok(a, x[i], r[i]) == cat_index_ok(b, x[i], r[i]) by {
            let v = x[i];
            let k = cat_ordinary_len(a);
            if exists|bb: int| 0 <= bb < k && (#[trigger] a[bb]).indices@.contains(v) {
                let bb = choose|bb: int| 0 <= bb < k && (#[trigger] a[bb]).indices@.contains(v);
                assert(b[bb].indices@.contains(v));
            }
            if exists|bb: int| 0 <= bb < k && (#[trigger] b[bb]).indices@.contains(v) {
                let bb = choose|bb: int| 0 <= bb < k && (#[trigger] b[bb]).indices@.contains(v);
                assert(a[bb].indices@.contains(v));
            }
        }
    }
}

/// Bins a categorical predictor: `min_bin_pct` and `max_bin_pct` are shares
/// of the present samples in millionths (`PCT_SCALE` is the whole).
pub struct CategoricalBinning {
    pub max_bins: usize,
    pub min_bin_pct: u32,
    pub max_bin_pct: u32,
    pub _bins: Option<Vec<CatBin>>,
}

impl CategoricalBinning {
    /// A fitted table, where there is one, is well formed.
    pub open spec fn wf(&self) -> bool {
        self._bins is Some ==> cat_bins_wf(self._bins->Some_0@)
    }

    /// The size limits that apply to the prebins of `stats`.
    pub open spec fn limits(&self, stats: PreCatBinStats) -> SizeLimits {
        limits_of(stats.counts.total_pos + stats.counts.total_neg, self.min_bin_pct as int, self.max_bin_pct as int)
    }

    /// An unfitted binner with the given parameters, taken as they are.
    pub fn new(max_bins: usize, min_bin_pct: u32, max_bin_pct: u32) -> (r: Self)
        ensures
            r.max_bins == max_bins,
            r.min_bin_pct == min_bin_pct,
            r.max_bin_pct == max_bin_pct,
            r._bins is None,
            r.wf(),
    {
        CategoricalBinning { max_bins, min_bin_pct, max_bin_pct, _bins: None }
    }

    /// An unfitted binner, or `InvalidConfig` where `max_bins` is 0, the
    /// minimum share is not below the maximum, or the maximum exceeds the whole.
    pub fn pynew(max_bins: usize, min_bin_pct: u32, max_bin_pct: u32) -> (r: Result<Self, BinningError>)
        ensures
            match r {
                Ok(b) => {
                    &&& max_bins >= 1 && min_bin_pct < max_bin_pct && max_bin_pct <= PCT_SCALE
                    &&& b.max_bins == max_bins && b.min_bin_pct == min_bin_pct && b.max_bin_pct == max_bin_pct
                    &&& b._bins is None
                    &&& b.wf()
                },
                Err(e) => e == BinningError::InvalidConfig
                    && !(max_bins >= 1 && min_bin_pct < max_bin_pct && max_bin_pct <= PCT_SCALE),
            },
    {
        if min_bin_pct >= max_bin_pct || max_bin_pct > PCT_SCALE || max_bins == 0 {
            return Err(BinningError::InvalidConfig);
        }
        Ok(Self::new(max_bins, min_bin_pct, max_bin_pct))
    }

    /// Checks the inputs of a fit and forms the prebins: `InvalidInput` where
    /// `x` and `y` differ in length, are empty, or a target is not 0 or 1.
    #[verifier::spinoff_prover]
    pub fn prebinning(&self, x: &Vec<i32>, y: &Vec<i32>) -> (r: Result<PreCatBinStats, BinningError>)
        requires
            x@.len() < COUNT_MAX,
        ensures
            match r {
                Ok(stats) => {
                    &&& x@.len() == y@.len() && x@.len() > 0 && binary_targets(y@)
                    &&& stats.wf()
                    &&& stats.counts.total_pos == present_pos(code_present(x@), y@, x@.len() as int)
                    &&& stats.counts.total_neg == present_neg(code_present(x@), y@, x@.len() as int)
                    &&& stats.missing_pos == present_pos(code_missing(x@), y@, x@.len() as int)
                    &&& stats.missing_neg == present_neg(code_missing(x@), y@, x@.len() as int)
                    &&& forall|k1: int, k2: int|
                        0 <= k1 < k2 < stats.counts.len() ==> !group_before(#[trigger] group_at(stats, k2), #[trigger] group_at(stats, k1))
                    &&& forall|c: i32| #[trigger] stats.indices@.contains(c) <==> observed(x@, c)
                    &&& forall|k: int| 0 <= k < stats.counts.len() ==> #[trigger] stats.counts.count_in(k, k) >= 1
                    &&& forall|k: int|
                        0 <= k < stats.counts.len() ==> #[trigger] stats.counts.pos_in(k, k)
                            == rows_with_code(x@, y@, stats.indices@[k], true, x@.len() as int)
                            && stats.counts.neg_in(k, k) == rows_with_code(x@, y@, stats.indices@[k], false, x@.len() as int)
                },
                Err(e) => e == BinningError::InvalidInput
                    && !(x@.len() == y@.len() && x@.len() > 0 && binary_targets(y@)),
            },
    {
        if x.len() != y.len() || x.len() == 0 {
            return Err(BinningError::InvalidInput);
        }
        let mut i: usize = 0;
        while i < y.len()
            invariant
                i <= y@.len(),
                forall|j: int| 0 <= j < i ==> (#[trigger] y@[j] == 0 || y@[j] == 1),
            decreases y@.len() - i,
        {
            if y[i] != 0 && y[i] != 1 {
                return Err(BinningError::InvalidInput);
            }
            i = i + 1;
        }
        let stats = prebin_codes(x, y);
        proof {
            assert forall|k: int| 0 <= k < stats.counts.len() implies #[trigger] stats.counts.pos_in(k, k)
                == rows_with_code(x@, y@, stats.indices@[k], true, x@.len() as int)
                && stats.counts.neg_in(k, k) == rows_with_code(x@, y@, stats.indices@[k], false, x@.len() as int) by {}
        }
        Ok(stats)
    }

    /// Fits bins on the prebins `stats`, with `gains[i][j]` the gain of one bin
    /// spanning prebins `i..=j`.
    pub fn execute_fit(&self, stats: &PreCatBinStats, gains: &Vec<Vec<i64>>) -> (r: Vec<CatBin>)
        requires
            self.max_bins >= 1,
            stats.wf(),
            stats.counts.len() <= PREBIN_MAX,
            gains_wf(gains@, stats.counts.len()),
        ensures
            cat_fit_ok(self.max_bins as int, self.limits(*stats), *stats, r@),
            cat_fit_optimal(*stats, gains@, self.limits(*stats), self.max_bins as int, r@),
            cat_fit_table(*stats, gains@, self.max_bins as int, self.limits(*stats), r@),
    {
        let n = stats.indices.len();
        if n == 0 {
            let mut bins: Vec<CatBin> = Vec::new();
            let b0 = CatBin { bin_id: 0, indices: Vec::new(), pos: 0, neg: 0, is_missing: false };
            proof {
                lemma_cat_push_sums(Seq::<CatBin>::empty(), b0);
                assert(Seq::<CatBin>::empty().push(b0) =~= seq![b0]);
            }
            bins.push(b0);
            if stats.missing_pos + stats.missing_neg > 0 {
                let mut cats: Vec<i32> = Vec::new();
                cats.push(MISSING_CODE);
                let bin = CatBin { bin_id: 1, indices: cats, pos: stats.missing_pos, neg: stats.missing_neg, is_missing: true };
                proof {
                    lemma_cat_push_sums(bins@, bin);
                    assert(bin.indices@ =~= seq![MISSING_CODE]);
                }
                bins.push(bin);
            }
            proof {
                assert(bins@[0].indices@.len() == 0);
                assert forall|c: i32| stats.indices@.contains(c) <==> exists|b: int| 0 <= b < cat_ordinary_len(bins@) && (#[trigger] bins@[b]).indices@.contains(c) by {
                    if exists|b: int| 0 <= b < cat_ordinary_len(bins@) && (#[trigger] bins@[b]).indices@.contains(c) {
                        let b = choose|b: int| 0 <= b < cat_ordinary_len(bins@) && (#[trigger] bins@[b]).indices@.contains(c);
                        assert(b == 0);
                    }
                }
            }
            return bins;
        }
        let lim = size_limits(stats.counts.total_pos + stats.counts.total_neg, self.min_bin_pct, self.max_bin_pct);
        let (met, total, splits) = optimize(&stats.counts, gains, self.max_bins, lim, None);
        let bins = reconstruct_cat_bins(stats, &splits);
        proof {
            let s = splits@;
            assert forall|s2: Seq<usize>| #[trigger] feasible(stats.counts, lim, s2, n as int) && s2.len() < self.max_bins implies exists|s3: Seq<usize>| {
                &&& #[trigger] cat_bins_from(*stats, s3, bins@)
                &&& feasible(stats.counts, lim, s3, n as int)
                &&& (s2.len() < s3.len() || (s2.len() == s3.len() && total_gain(gains@, s2, n as int) <= total_gain(gains@, s3, n as int)))
            } by {
                assert(cat_bins_from(*stats, s, bins@));
                assert(feasible(stats.counts, lim, s, n as int));
            }
            let k = s.len() + 1;
            if met {
                assert(bins_sized(stats.counts, lim, s, n as int));
                assert forall|b: int| 0 <= b < k implies lim.min_count <= (#[trigger] bins@[b]).pos + bins@[b].neg <= lim.max_count by {
                    assert(cat_bin_matches(bins@[b], *stats, s, b));
                    assert(crate::optimizer::size_ok(stats.counts, lim, bin_start(s, b), bin_end(s, n as int, b)));
                }
            }
        }
        bins
    }

    /// Fits on `stats` and `gains` (see `execute_fit`) and keeps the bins,
    /// replacing any earlier table.
    pub fn fit(&mut self, stats: &PreCatBinStats, gains: &Vec<Vec<i64>>) -> (r: Vec<CatBin>)
        requires
            old(self).max_bins >= 1,
            stats.wf(),
            stats.counts.len() <= PREBIN_MAX,
            gains_wf(gains@, stats.counts.len()),
        ensures
            final(self).max_bins == old(self).max_bins,
            final(self).min_bin_pct == old(self).min_bin_pct,
            final(self).max_bin_pct == old(self).max_bin_pct,
            final(self)._bins is Some,
            cat_bins_same(final(self)._bins->Some_0@, r@),
            final(self).wf(),
            cat_fit_ok(old(self).max_bins as int, old(self).limits(*stats), *stats, r@),
            cat_fit_optimal(*stats, gains@, old(self).limits(*stats), old(self).max_bins as int, r@),
            cat_fit_table(*stats, gains@, old(self).max_bins as int, old(self).limits(*stats), r@),
            cat_fit_table(*stats, gains@, old(self).max_bins as int, old(self).limits(*stats), final(self)._bins->Some_0@),
    {
        let bins = self.execute_fit(stats, gains);
        let kept = copy_cat_bins(&bins);
        proof {
            lemma_same_bins(kept@, bins@);
            lemma_same_table(*stats, gains@, self.max_bins as int, self.limits(*stats), kept@, bins@);
            assert forall|i: int| 0 <= i < kept@.len() implies #[trigger] cat_bin_same(kept@[i], bins@[i]) by {}
        }
        self._bins = Some(kept);
        bins
    }

    /// Maps each code of `x` to its bin in `bins`.
    pub fn execute_transform(&self, x: &Vec<i32>, bins: &Vec<CatBin>) -> (r: Vec<Option<usize>>)
        requires
            cat_bins_wf(bins@),
        ensures
            cat_transform_ok(bins@, x@, r@),
    {
        broadcast use vstd::std_specs::hash::group_hash_axioms;
        let k: usize = if bins.len() > 0 && bins[bins.len() - 1].is_missing {
            bins.len() - 1
        } else {
            bins.len()
        };
        let missing: Option<usize> = if k < bins.len() {
            Some(k)
        } else {
            None
        };
        let mut lookup: HashMap<i32, usize> = HashMap::new();
        let mut b: usize = 0;
        while b < k
            invariant
                cat_bins_wf(bins@),
                k == cat_ordinary_len(bins@),
                b <= k,
                forall|c: i32| #[trigger] lookup@.contains_key(c) ==> lookup@[c] < b && bins@[lookup@[c] as int].indices@.contains(c),
                forall|b2: int, c: i32| 0 <= b2 < b && #[trigger] bins@[b2].indices@.contains(c) ==> lookup@.contains_key(c),
            decreases k - b,
        {
            let cats = &bins[b].indices;
            let mut t: usize = 0;
            while t < cats.len()
                invariant
                    cat_bins_wf(bins@),
                    k == cat_ordinary_len(bins@),
                    b < k,
                    *cats == bins@[b as int].indices,
                    t <= cats@.len(),
                    forall|c: i32| #[trigger] lookup@.contains_key(c) ==> lookup@[c] <= b && bins@[lookup@[c] as int].indices@.contains(c),
                    forall|b2: int, c: i32| 0 <= b2 < b && #[trigger] bins@[b2].indices@.contains(c) ==> lookup@.contains_key(c),
                    forall|u: int| 0 <= u < t ==> lookup@.contains_key(#[trigger] cats@[u]),
                decreases cats@.len() - t,
            {
                let c = cats[t];
                proof {
                    assert(bins@[b as int].indices@[t as int] == c);
                    assert(bins@[b as int].indices@.contains(c));
                }
                lookup.insert(c, b);
                t = t + 1;
            }
            proof {
                assert forall|c: i32| #[trigger] bins@[b as int].indices@.contains(c) implies lookup@.contains_key(c) by {
                    let u = choose|u: int| 0 <= u < cats@.len() && cats@[u] == c;
                }
            }
            b = b + 1;
        }
        let mut out: Vec<Option<usize>> = Vec::new();
        let mut i: usize = 0;
        while i < x.len()
            invariant
                cat_bins_wf(bins@),
                k == cat_ordinary_len(bins@),
                missing == if k < bins@.len() { Some(k) } else { None::<usize> },
                forall|c: i32| #[trigger] lookup@.contains_key(c) ==> lookup@[c] < k && bins@[lookup@[c] as int].indices@.contains(c),
                forall|b2: int, c: i32| 0 <= b2 < k && #[trigger] bins@[b2].indices@.contains(c) ==> lookup@.contains_key(c),
                i <= x@.len(),
                out@.len() == i,
                forall|j: int| 0 <= j < i ==> cat_index_ok(bins@, x@[j], #[trigger] out@[j]),
            decreases x@.len() - i,
        {
            let v = x[i];
            let idx = if v == MISSING_CODE {
                missing
            } else {
                match lookup.get(&v) {
                    Some(bi) => Some(*bi),
                    None => missing,
                }
            };
            out.push(idx);
            i = i + 1;
        }
        out
    }

    /// Maps each code of `x` to its fitted bin: `NotFitted` before a fit.
    pub fn transform(&self, x: &Vec<i32>) -> (r: Result<Vec<Option<usize>>, BinningError>)
        requires
            self.wf(),
        ensures
            match r {
                Ok(out) => self._bins is Some && cat_transform_ok(self._bins->Some_0@, x@, out@),
                Err(e) => e == BinningError::NotFitted && self._bins is None,
            },
    {
        match &self._bins {
            None => Err(BinningError::NotFitted),
            Some(bins) => Ok(self.execute_transform(x, bins)),
        }
    }

    /// Fits on `stats` and `gains`, then maps `x` (the codes the prebins were
    /// formed from) to the fitted bins.
    pub fn fit_transform(&mut self, stats: &PreCatBinStats, gains: &Vec<Vec<i64>>, x: &Vec<i32>) -> (r: Vec<Option<usize>>)
        requires
            old(self).max_bins >= 1,
            stats.wf(),
            stats.counts.len() <= PREBIN_MAX,
            gains_wf(gains@, stats.counts.len()),
        ensures
            final(self)._bins is Some,
            final(self).wf(),
            exists|fitted: Seq<CatBin>| cat_fit_ok(old(self).max_bins as int, old(self).limits(*stats), *stats, fitted)
                && #[trigger] cat_bins_same(final(self)._bins->Some_0@, fitted),
            cat_fit_table(*stats, gains@, old(self).max_bins as int, old(self).limits(*stats), final(self)._bins->Some_0@),
            final(self).max_bins == old(self).max_bins,
            final(self).min_bin_pct == old(self).min_bin_pct,
            final(self).max_bin_pct == old(self).max_bin_pct,
            cat_transform_ok(final(self)._bins->Some_0@, x@, r@),
    {
        let fitted = self.fit(stats, gains);
        match self.transform(x) {
            Ok(out) => out,
            Err(_) => Vec::new(),
        }
    }

    /// The fitted bins: `NotFitted` before a fit.
    pub fn bins(&self) -> (r: Result<Vec<CatBin>, BinningError>)
        ensures
            match r {
                Ok(b) => self._bins is Some && cat_bins_same(b@, self._bins->Some_0@),
                Err(e) => e == BinningError::NotFitted && self._bins is None,
            },
    {
        match &self._bins {
            None => Err(BinningError::NotFitted),
            Some(bins) => Ok(copy_cat_bins(bins)),
        }
    }
}

/// Fitting keeps every row: over all bins of a fit on the prebins of `x` and
/// `y`, the positives add up to the rows whose target is 1 and the counts to
/// the number of rows.
pub proof fn lemma_cat_fit_keeps_rows(
    x: Seq<i32>,
    y: Seq<i32>,
    stats: PreCatBinStats,
    max_bins: int,
    lim: SizeLimits,
    bins: Seq<CatBin>,
)
    requires
        x.len() == y.len(),
        stats.counts.total_pos == present_pos(code_present(x), y, x.len() as int),
        stats.counts.total_neg == present_neg(code_present(x), y, x.len() as int),
        stats.missing_pos == present_pos(code_missing(x), y, x.len() as int),
        stats.missing_neg == present_neg(code_missing(x), y, x.len() as int),
        cat_fit_ok(max_bins, lim, stats, bins),
    ensures
        cat_sum_pos(bins) == positives(y, y.len() as int),
        cat_sum_pos(bins) + cat_sum_neg(bins) == x.len(),
{
    assert forall|i: int| #[trigger] code_missing(x)(i) == !code_present(x)(i) by {}
    lemma_split_counts(code_present(x), code_missing(x), y, x.len() as int);
}

/// A fit on the prebins of `x` and `y` has a missing bin exactly when some
/// code of `x` is the missing code.
pub proof fn lemma_cat_missing_bin(
    x: Seq<i32>,
    y: Seq<i32>,
    stats: PreCatBinStats,
    max_bins: int,
    lim: SizeLimits,
    bins: Seq<CatBin>,
)
    requires
        x.len() == y.len(),
        stats.missing_pos == present_pos(code_missing(x), y, x.len() as int),
        stats.missing_neg == present_neg(code_missing(x), y, x.len() as int),
        cat_fit_ok(max_bins, lim, stats, bins),
    ensures
        (exists|b: int| 0 <= b < bins.len() && (#[trigger] bins[b]).is_missing)
            <==> exists|i: int| 0 <= i < x.len() && #[trigger] x[i] == MISSING_CODE,
{
    lemma_some_present(code_missing(x), y, x.len() as int);
    let k = cat_ordinary_len(bins);
    if exists|b: int| 0 <= b < bins.len() && (#[trigger] bins[b]).is_missing {
        let b = choose|b: int| 0 <= b < bins.len() && (#[trigger] bins[b]).is_missing;
        assert(b >= k);
    }
    if k < bins.len() {
        assert(bins[k].is_missing);
    }
    if exists|i: int| 0 <= i < x.len() && #[trigger] x[i] == MISSING_CODE {
        let i = choose|i: int| 0 <= i < x.len() && #[trigger] x[i] == MISSING_CODE;
        assert(code_missing(x)(i));
    }
    if exists|i: int| 0 <= i < x.len() && #[trigger] code_missing(x)(i) {
        let i = choose|i: int| 0 <= i < x.len() && #[trigger] code_missing(x)(i);
        assert(x[i] == MISSING_CODE);
    }
}

/// The ordinary bins of a fit on the prebins of `x` partition the categories
/// observed in `x`, the missing code aside: each lies in exactly one ordinary
/// bin, and no other category lies in any.
pub proof fn lemma_cat_bins_partition(
    x: Seq<i32>,
    stats: PreCatBinStats,
    max_bins: int,
    lim: SizeLimits,
    bins: Seq<CatBin>,
)
    requires
        forall|c: i32| #[trigger] stats.indices@.contains(c) <==> observed(x, c),
        cat_fit_ok(max_bins, lim, stats, bins),
    ensures
        forall|c: i32|
            observed(x, c) <==> exists|b: int| 0 <= b < cat_ordinary_len(bins) && (#[trigger] bins[b]).indices@.contains(c),
        forall|b1: int, b2: int, c: i32|
            0 <= b1 < cat_ordinary_len(bins) && 0 <= b2 < cat_ordinary_len(bins) && #[trigger] bins[b1].indices@.contains(c)
                && #[trigger] bins[b2].indices@.contains(c) ==> b1 == b2,
{
    assert forall|c: i32|
        observed(x, c) <==> exists|b: int| 0 <= b < cat_ordinary_len(bins) && (#[trigger] bins[b]).indices@.contains(c) by {
        assert(stats.indices@.contains(c) <==> observed(x, c));
    }
}

/// Rows `0..m` whose code is one of `cats`, not the missing code, and whose
/// target is 1 (`pos`) or not (`!pos`).
pub open spec fn rows_in_codes(x: Seq<i32>, y: Seq<i32>, cats: Seq<i32>, pos: bool, m: int) -> nat
    decreases m,
{
    if m <= 0 {
        0
    } else {
        rows_in_codes(x, y, cats, pos, m - 1) + if cats.contains(x[m - 1]) && x[m - 1] != MISSING_CODE
            && ((y[m - 1] == 1) == pos) {
            1nat
        } else {
            0nat
        }
    }
}

proof fn lemma_rows_in_codes_push(x: Seq<i32>, y: Seq<i32>, cats: Seq<i32>, c: i32, pos: bool, m: int)
    requires
        !cats.contains(c),
    ensures
        rows_in_codes(x, y, cats.push(c), pos, m) == rows_in_codes(x, y, cats, pos, m) + rows_with_code(x, y, c, pos, m),
    decreases m,
{
    if m > 0 {
        lemma_rows_in_codes_push(x, y, cats, c, pos, m - 1);
        let v = x[m - 1];
        if cats.push(c).contains(v) {
            let w = choose|w: int| 0 <= w < cats.push(c).len() && cats.push(c)[w] == v;
            if w < cats.len() {
                assert(cats[w] == v);
            }
        }
        if cats.contains(v) {
            let w = choose|w: int| 0 <= w < cats.len() && cats[w] == v;
            assert(cats.push(c)[w] == v);
        }
        if v == c {
            assert(cats.push(c)[cats.len() as int] == v);
        }
    }
}

proof fn lemma_cat_run_rows(x: Seq<i32>, y: Seq<i32>, stats: PreCatBinStats, i: int, j: int)
    requires
        stats.wf(),
        0 <= i <= j < stats.counts.len(),
        forall|k: int|
            0 <= k < stats.counts.len() ==> #[trigger] stats.counts.pos_in(k, k) == rows_with_code(x, y, stats.indices@[k], true, x.len() as int)
                && stats.counts.neg_in(k, k) == rows_with_code(x, y, stats.indices@[k], false, x.len() as int),
    ensures
        stats.counts.pos_in(i, j) == rows_in_codes(x, y, stats.indices@.subrange(i, j + 1), true, x.len() as int),
        stats.counts.neg_in(i, j) == rows_in_codes(x, y, stats.indices@.subrange(i, j + 1), false, x.len() as int),
    decreases j - i,
{
    let idx = stats.indices@;
    let cats = idx.subrange(i, j);
    assert(idx.subrange(i, j + 1) =~= cats.push(idx[j]));
    assert(!cats.contains(idx[j])) by {
        if cats.contains(idx[j]) {
            let w = choose|w: int| 0 <= w < cats.len() && cats[w] == idx[j];
            assert(idx[i + w] == idx[j]);
        }
    }
    lemma_rows_in_codes_push(x, y, cats, idx[j], true, x.len() as int);
    lemma_rows_in_codes_push(x, y, cats, idx[j], false, x.len() as int);
    assert(stats.counts.pos_in(j, j) == rows_with_code(x, y, idx[j], true, x.len() as int));
    if j > i {
        lemma_cat_run_rows(x, y, stats, i, j - 1);
        assert(idx.subrange(i, j - 1 + 1) =~= cats);
    } else {
        assert(cats =~= Seq::<i32>::empty());
        lemma_rows_in_codes_empty(x, y, true, x.len() as int);
        lemma_rows_in_codes_empty(x, y, false, x.len() as int);
    }
}

proof fn lemma_rows_in_codes_empty(x: Seq<i32>, y: Seq<i32>, pos: bool, m: int)
    ensures
        rows_in_codes(x, y, Seq::<i32>::empty(), pos, m) == 0,
    decreases m,
{
    if m > 0 {
        lemma_rows_in_codes_empty(x, y, pos, m - 1);
    }
}

/// Each ordinary bin of a fit on the prebins of `x` and `y` counts exactly
/// the rows whose code it holds: its positives those with target 1, its
/// negatives the others.
pub proof fn lemma_cat_bins_count_their_rows(
    x: Seq<i32>,
    y: Seq<i32>,
    stats: PreCatBinStats,
    max_bins: int,
    lim: SizeLimits,
    bins: Seq<CatBin>,
)
    requires
        stats.wf(),
        stats.counts.len() >= 1,
        forall|k: int|
            0 <= k < stats.counts.len() ==> #[trigger] stats.counts.pos_in(k, k) == rows_with_code(x, y, stats.indices@[k], true, x.len() as int)
                && stats.counts.neg_in(k, k) == rows_with_code(x, y, stats.indices@[k], false, x.len() as int),
        cat_fit_ok(max_bins, lim, stats, bins),
    ensures
        forall|b: int|
            0 <= b < cat_ordinary_len(bins) ==> (#[trigger] bins[b]).pos == rows_in_codes(x, y, bins[b].indices@, true, x.len() as int)
                && bins[b].neg == rows_in_codes(x, y, bins[b].indices@, false, x.len() as int),
{
    let n = stats.counts.len();
    let s = choose|s: Seq<usize>| valid_splits(s, n) && #[trigger] cat_bins_from(stats, s, bins);
    lemma_splits_ascending(s, n);
    assert(cat_ordinary_len(bins) == s.len() + 1) by {
        assert(cat_bin_matches(bins[s.len() as int], stats, s, s.len() as int));
    }
    assert forall|b: int| 0 <= b < cat_ordinary_len(bins) implies (#[trigger] bins[b]).pos == rows_in_codes(x, y, bins[b].indices@, true, x.len() as int)
        && bins[b].neg == rows_in_codes(x, y, bins[b].indices@, false, x.len() as int) by {
        assert(cat_bin_matches(bins[b], stats, s, b));
        if 0 < b < s.len() {
            assert(s[b - 1] < s[b]);
        }
        lemma_cat_run_rows(x, y, stats, bin_start(s, b), bin_end(s, n, b));
    }
}

/// A fit is a function of its inputs, and so is the transform after it: two
/// tables that a fit on the same prebins, gains and limits may yield hold the
/// same bins, and mapping the same codes against them gives the same indices.
/// So `fit_transform` yields what `fit` followed by `transform` yields.
#[verifier::spinoff_prover]
pub proof fn lemma_cat_fit_transform_agree(
    stats: PreCatBinStats,
    g: Seq<Vec<i64>>,
    max_bins: int,
    lim: SizeLimits,
    b1: Seq<CatBin>,
    b2: Seq<CatBin>,
    x: Seq<i32>,
    r1: Seq<Option<usize>>,
    r2: Seq<Option<usize>>,
)
    requires
        cat_fit_table(stats, g, max_bins, lim, b1),
        cat_fit_table(stats, g, max_bins, lim, b2),
        cat_bins_wf(b1),
        cat_transform_ok(b1, x, r1),
        cat_transform_ok(b2, x, r2),
    ensures
        cat_bins_same(b1, b2),
        r1 == r2,
{
    if stats.counts.len() > 0 {
        let s = optimum(stats.counts, g, max_bins, lim, None).1;
        assert forall|b: int| 0 <= b < b1.len() implies #[trigger] cat_bin_same(b1[b], b2[b]) by {
            if b < s.len() + 1 {
                assert(cat_bin_matches(b1[b], stats, s, b));
                assert(cat_bin_matches(b2[b], stats, s, b));
            }
        }
    } else {
        assert forall|b: int| 0 <= b < b1.len() implies #[trigger] cat_bin_same(b1[b], b2[b]) by {
            if b == 0 {
                assert(b1[0].indices@ =~= b2[0].indices@);
            }
        }
    }
    lemma_same_bins(b1, b2);
    assert forall|i: int| 0 <= i < x.len() implies r1[i] == r2[i] by {
        assert(cat_index_ok(b1, x[i], r1[i]));
        assert(cat_index_ok(b1, x[i], r2[i]));
        if r1[i] is Some && r2[i] is Some && r1[i]->Some_0 < cat_ordinary_len(b1) && r2[i]->Some_0 < cat_ordinary_len(b1) {
            assert(b1[r1[i]->Some_0 as int].indices@.contains(x[i]));
            assert(b1[r2[i]->Some_0 as int].indices@.contains(x[i]));
        }
    }
    assert(r1 =~= r2);
}

/// When some partition of the prebins into at most `max_bins` bins meets the
/// size limits, every ordinary bin of the fit meets them, and the fit has at
/// least as many ordinary bins as that partition.
pub proof fn lemma_cat_sizes_when_feasible(
    stats: PreCatBinStats,
    g: Seq<Vec<i64>>,
    max_bins: int,
    lim: SizeLimits,
    bins: Seq<CatBin>,
    s2: Seq<usize>,
)
    requires
        stats.wf(),
        cat_fit_ok(max_bins, lim, stats, bins),
        cat_fit_optimal(stats, g, lim, max_bins, bins),
        feasible(stats.counts, lim, s2, stats.counts.len()),
        s2.len() < max_bins,
    ensures
        cat_bins_sized(bins, lim),
        s2.len() + 1 <= cat_ordinary_len(bins),
{
    let n = stats.counts.len();
    let s = choose|s: Seq<usize>| {
        &&& #[trigger] cat_bins_from(stats, s, bins)
        &&& feasible(stats.counts, lim, s, n)
        &&& (s2.len() < s.len() || (s2.len() == s.len() && total_gain(g, s2, n) <= total_gain(g, s, n)))
    };
    assert(cat_ordinary_len(bins) == s.len() + 1) by {
        assert(cat_bin_matches(bins[s.len() as int], stats, s, s.len() as int));
    }
    lemma_splits_ascending(s, n);
    assert forall|b: int| 0 <= b < cat_ordinary_len(bins) implies lim.min_count <= (#[trigger] bins[b]).pos + bins[b].neg <= lim.max_count by {
        assert(cat_bin_matches(bins[b], stats, s, b));
        assert(crate::optimizer::size_ok(stats.counts, lim, bin_start(s, b), bin_end(s, n, b)));
    }
}

} // verus!
