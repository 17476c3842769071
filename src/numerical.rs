//! Optimal binning of a numerical predictor.
use vstd::prelude::*;
use crate::counts::{prefix_sum, lemma_prefix_sum_push, COUNT_MAX};
use crate::input::{lemma_counts_bounded, lemma_some_present, lemma_split_counts, positives, present_neg, present_pos};
use crate::error::BinningError;
use crate::input::binary_targets;
use crate::optimizer::{
    bin_end, bin_start, gains_wf, lemma_splits_ascending, limits_of, optimize, size_limits,
    valid_splits, bins_follow, bins_sized, optimum, total_gain, SizeLimits, Trend, PCT_SCALE,
};
use crate::counts::woe_le;
use crate::prenumerical::PreNumBinStats;
use crate::grouping::{above, closed_groups, group_sorted, keys_below, keys_in, lemma_keys_in_perm, prev_edge};
use crate::sorting::par_sort_keys;

verus! {

/// Rows whose value is present.
pub open spec fn present_at(x: Seq<Option<i64>>) -> spec_fn(int) -> bool {
    |i: int| x[i] is Some
}

/// Rows whose value is missing.
pub open spec fn missing_at(x: Seq<Option<i64>>) -> spec_fn(int) -> bool {
    |i: int| x[i] is None
}

/// Rows `0..m` whose value is present and in `(lo, hi]`, and whose target is
/// 1 (`pos`) or not (`!pos`).
pub open spec fn rows_in(x: Seq<Option<i64>>, y: Seq<i32>, lo: Option<i64>, hi: i64, pos: bool, m: int) -> nat
    decreases m,
{
    if m <= 0 {
        0
    } else {
        rows_in(x, y, lo, hi, pos, m - 1) + if x[m - 1] is Some && above(lo, x[m - 1]->Some_0)
            && x[m - 1]->Some_0 <= hi && ((y[m - 1] == 1) == pos) {
            1nat
        } else {
            0nat
        }
    }
}

/// `m` is the integer square root of `n` clamped to `100..=500`.
pub open spec fn is_prebin_target(n: int, m: int) -> bool {
    &&& 100 <= m <= 500
    &&& m > 100 ==> m * m <= n
    &&& m < 500 ==> n < (m + 1) * (m + 1)
}

/// `n` has one clamped integer square root.
pub proof fn lemma_prebin_target_unique(n: int, m1: int, m2: int)
    requires
        is_prebin_target(n, m1),
        is_prebin_target(n, m2),
    ensures
        m1 == m2,
{
    if m1 < m2 {
        assert((m1 + 1) * (m1 + 1) <= m2 * m2) by (nonlinear_arith)
            requires
                m1 + 1 <= m2,
                m1 >= 0,
        ;
    } else if m2 < m1 {
        assert((m2 + 1) * (m2 + 1) <= m1 * m1) by (nonlinear_arith)
            requires
                m2 + 1 <= m1,
                m2 >= 0,
        ;
    }
}

/// Some row of `x` holds the value `v`.
pub open spec fn present_value(x: Seq<Option<i64>>, v: i64) -> bool {
    exists|i: int| 0 <= i < x.len() && x[i] == Some(v)
}

/// Rows `0..m` whose value is present and in `(lo, v)`, strictly below `v`,
/// and whose target is 1 (`pos`) or not.
pub open spec fn rows_below(x: Seq<Option<i64>>, y: Seq<i32>, lo: Option<i64>, v: i64, pos: bool, m: int) -> nat {
    if v == i64::MIN {
        0
    } else {
        rows_in(x, y, lo, (v - 1) as i64, pos, m)
    }
}

/// The number of prebins aimed at for `n` present values: the integer square
/// root of `n`, clamped to `100..=500`.
pub fn prebin_target(n: usize) -> (r: usize)
    ensures
        is_prebin_target(n as int, r as int),
{
    let mut r: usize = 100;
    let mut done = false;
    while r < 500 && !done
        invariant
            100 <= r <= 500,
            r > 100 ==> r * r <= n,
            done ==> n < (r + 1) * (r + 1),
        decreases 500 - r + if done { 0int } else { 1int },
    {
        assert((r + 1) * (r + 1) <= 251001) by (nonlinear_arith)
            requires
                r < 500,
        ;
        if (r + 1) * (r + 1) <= n {
            r = r + 1;
        } else {
            done = true;
        }
    }
    r
}

pub(crate) proof fn lemma_prebin_bound(e: int, chunk: int, total: int, r: int)
    requires
        chunk >= 1,
        1 <= r,
        e >= 1 ==> (e - 1) * chunk + 1 <= total,
        total <= chunk * r,
    ensures
        e <= r,
{
    if e > r {
        assert((e - 1) * chunk >= r * chunk) by (nonlinear_arith)
            requires
                e - 1 >= r,
                chunk >= 1,
        ;
    }
}

pub(crate) proof fn lemma_ceil_div(total: int, target: int, chunk: int)
    requires
        chunk == (total + target - 1) / target,
        target >= 1,
        total >= 1,
    ensures
        chunk >= 1,
        total <= chunk * target,
{
    assert(chunk >= 1 && total <= chunk * target) by (nonlinear_arith)
        requires
            chunk == (total + target - 1) / target,
            target >= 1,
            total >= 1,
    ;
}

/// Splits `x` into present and missing rows, sorts the present values, and
/// forms equal-frequency prebins of `ceil(n / prebin_target(n))` values over
/// the `n` present ones. A prebin closes only where the next value differs,
/// so equal values never fall in two prebins.
pub fn prebinning(x: &Vec<Option<i64>>, y: &Vec<i32>) -> (r: PreNumBinStats)
    requires
        x@.len() == y@.len(),
        x@.len() < COUNT_MAX,
    ensures
        r.wf(),
        r.counts.total_pos == present_pos(present_at(x@), y@, x@.len() as int),
        r.counts.total_neg == present_neg(present_at(x@), y@, x@.len() as int),
        r.missing_pos == present_pos(missing_at(x@), y@, x@.len() as int),
        r.missing_neg == present_neg(missing_at(x@), y@, x@.len() as int),
        forall|k: int| 0 <= k < r.counts.len() ==> #[trigger] r.counts.count_in(k, k) >= 1,
        r.counts.len() <= 500,
        forall|k: int|
            0 <= k < r.counts.len() ==> #[trigger] r.counts.pos_in(k, k) == rows_in(x@, y@, prev_edge(r.edges@, k), r.edges@[k], true, x@.len() as int)
                && r.counts.neg_in(k, k) == rows_in(x@, y@, prev_edge(r.edges@, k), r.edges@[k], false, x@.len() as int),
        r.counts.len() > 0 ==> forall|i: int| 0 <= i < x@.len() && (#[trigger] x@[i]) is Some ==> x@[i]->Some_0 <= r.edges@.last(),
        r.counts.len() == 0 ==> forall|i: int| 0 <= i < x@.len() ==> (#[trigger] x@[i]) is None,
        forall|k: int| 0 <= k < r.counts.len() ==> present_value(x@, #[trigger] r.edges@[k]),
        forall|m: int|
            #[trigger] is_prebin_target(r.counts.total_pos + r.counts.total_neg, m) ==> r.counts.len() <= m && forall|k: int|
                0 <= k < r.counts.len() - 1 ==> #[trigger] r.counts.count_in(k, k) >= (r.counts.total_pos + r.counts.total_neg + m - 1) / m,
        forall|m: int, k: int|
            #[trigger] is_prebin_target(r.counts.total_pos + r.counts.total_neg, m) && 0 <= k < r.counts.len() ==> #[trigger] rows_below(
                x@,
                y@,
                prev_edge(r.edges@, k),
                r.edges@[k],
                true,
                x@.len() as int,
            ) + rows_below(x@, y@, prev_edge(r.edges@, k), r.edges@[k], false, x@.len() as int) < (r.counts.total_pos + r.counts.total_neg + m
                - 1) / m,
{
    let n = x.len();
    let ghost pr = present_at(x@);
    let ghost ms = missing_at(x@);
    let mut pkeys: Vec<i64> = Vec::new();
    let mut nkeys: Vec<i64> = Vec::new();
    let mut missing_pos: u64 = 0;
    let mut missing_neg: u64 = 0;
    let mut i: usize = 0;
    while i < n
        invariant
            n == x@.len(),
            n == y@.len(),
            n < COUNT_MAX,
            i <= n,
            pkeys@.len() == present_pos(pr, y@, i as int),
            nkeys@.len() == present_neg(pr, y@, i as int),
            missing_pos == present_pos(ms, y@, i as int),
            missing_neg == present_neg(ms, y@, i as int),
            pr == present_at(x@),
            ms == missing_at(x@),
            forall|lo: Option<i64>, hi: i64| #[trigger] keys_in(pkeys@, lo, hi) == rows_in(x@, y@, lo, hi, true, i as int),
            forall|lo: Option<i64>, hi: i64| #[trigger] keys_in(nkeys@, lo, hi) == rows_in(x@, y@, lo, hi, false, i as int),
            forall|j: int| 0 <= j < i && (#[trigger] x@[j]) is Some ==> pkeys@.contains(x@[j]->Some_0) || nkeys@.contains(x@[j]->Some_0),
            forall|j: int| 0 <= j < pkeys@.len() ==> present_value(x@, #[trigger] pkeys@[j]),
            forall|j: int| 0 <= j < nkeys@.len() ==> present_value(x@, #[trigger] nkeys@[j]),
        decreases n - i,
    {
        proof {
            lemma_counts_bounded(pr, y@, i as int);
            lemma_counts_bounded(ms, y@, i as int);
        }
        let ghost old_p = pkeys@;
        let ghost old_n = nkeys@;
        match x[i] {
            Some(v) => {
                if y[i] == 1 {
                    pkeys.push(v);
                } else {
                    nkeys.push(v);
                }
            },
            None => {
                if y[i] == 1 {
                    missing_pos = missing_pos + 1;
                } else {
                    missing_neg = missing_neg + 1;
                }
            },
        }
        proof {
            if pkeys@.len() > old_p.len() {
                assert(pkeys@.drop_last() =~= old_p);
            } else {
                assert(pkeys@ =~= old_p);
            }
            if nkeys@.len() > old_n.len() {
                assert(nkeys@.drop_last() =~= old_n);
            } else {
                assert(nkeys@ =~= old_n);
            }
            assert forall|lo: Option<i64>, hi: i64| #[trigger] keys_in(pkeys@, lo, hi) == rows_in(x@, y@, lo, hi, true, i + 1) by {
                assert(keys_in(old_p, lo, hi) == rows_in(x@, y@, lo, hi, true, i as int));
            }
            assert forall|lo: Option<i64>, hi: i64| #[trigger] keys_in(nkeys@, lo, hi) == rows_in(x@, y@, lo, hi, false, i + 1) by {
                assert(keys_in(old_n, lo, hi) == rows_in(x@, y@, lo, hi, false, i as int));
            }
            assert forall|e: i64| old_p.contains(e) implies pkeys@.contains(e) by {
                let w = choose|w: int| 0 <= w < old_p.len() && old_p[w] == e;
                assert(pkeys@[w] == e);
            }
            assert forall|e: i64| old_n.contains(e) implies nkeys@.contains(e) by {
                let w = choose|w: int| 0 <= w < old_n.len() && old_n[w] == e;
                assert(nkeys@[w] == e);
            }
            assert forall|j: int| 0 <= j < pkeys@.len() implies present_value(x@, #[trigger] pkeys@[j]) by {
                if j < old_p.len() {
                    assert(present_value(x@, old_p[j]));
                } else {
                    assert(x@[i as int] == Some(pkeys@[j]));
                }
            }
            assert forall|j: int| 0 <= j < nkeys@.len() implies present_value(x@, #[trigger] nkeys@[j]) by {
                if j < old_n.len() {
                    assert(present_value(x@, old_n[j]));
                } else {
                    assert(x@[i as int] == Some(nkeys@[j]));
                }
            }
            if x@[i as int] is Some {
                if pkeys@.len() > old_p.len() {
                    assert(pkeys@[pkeys@.len() - 1] == x@[i as int]->Some_0);
                } else {
                    assert(nkeys@[nkeys@.len() - 1] == x@[i as int]->Some_0);
                }
            }
        }
        i = i + 1;
    }
    proof {
        assert forall|j: int| #[trigger] ms(j) == !pr(j) by {}
        crate::input::lemma_split_counts(pr, ms, y@, n as int);
    }
    let ghost p0 = pkeys@;
    let ghost n0 = nkeys@;
    par_sort_keys(&mut pkeys);
    par_sort_keys(&mut nkeys);
    proof {
        assert forall|lo: Option<i64>, hi: i64| #[trigger] keys_in(pkeys@, lo, hi) == rows_in(x@, y@, lo, hi, true, n as int) by {
            lemma_keys_in_perm(p0, pkeys@, lo, hi);
        }
        assert forall|lo: Option<i64>, hi: i64| #[trigger] keys_in(nkeys@, lo, hi) == rows_in(x@, y@, lo, hi, false, n as int) by {
            lemma_keys_in_perm(n0, nkeys@, lo, hi);
        }
        crate::categorical::lemma_perm_contains(p0, pkeys@);
        crate::categorical::lemma_perm_contains(n0, nkeys@);
    }
    let pk = pkeys.len();
    let nk = nkeys.len();
    let total = pk + nk;
    if total == 0 {
        proof {
            assert forall|i: int| 0 <= i < x@.len() implies (#[trigger] x@[i]) is None by {
                if x@[i] is Some {
                    assert(p0.contains(x@[i]->Some_0) || n0.contains(x@[i]->Some_0));
                }
            }
        }
        return PreNumBinStats::new(&Vec::new(), &Vec::new(), Vec::new(), missing_pos, missing_neg);
    }
    assert(total <= n);
    let target = prebin_target(total);
    let chunk: u64 = (total as u64 + target as u64 - 1) / target as u64;
    proof {
        lemma_ceil_div(total as int, target as int, chunk as int);
    }

    let (pos_counts, neg_counts, edges) = group_sorted(&pkeys, &nkeys, chunk);
    proof {
        lemma_prebin_bound(edges@.len() as int, chunk as int, total as int, target as int);
    }
    let r = PreNumBinStats::new(&pos_counts, &neg_counts, edges, missing_pos, missing_neg);
    proof {
        assert forall|k: int| 0 <= k < r.counts.len() implies #[trigger] r.counts.count_in(k, k) >= 1 by {
            assert(r.counts.cum_pos@[k] as int == prefix_sum(pos_counts@, k + 1));
            assert(prefix_sum(pos_counts@, k + 1) == prefix_sum(pos_counts@, k) + pos_counts@[k]);
            assert(prefix_sum(neg_counts@, k + 1) == prefix_sum(neg_counts@, k) + neg_counts@[k]);
            assert(pos_counts@[k] + neg_counts@[k] >= 1);
            assert(pos_counts@[k] == keys_in(pkeys@, prev_edge(edges@, k), edges@[k]));
            assert(neg_counts@[k] == keys_in(nkeys@, prev_edge(edges@, k), edges@[k]));
            assert(r.counts.cum_neg@[k] as int == prefix_sum(neg_counts@, k + 1));
            if k > 0 {
                assert(r.counts.cum_pos@[k - 1] as int == prefix_sum(pos_counts@, k));
                assert(r.counts.cum_neg@[k - 1] as int == prefix_sum(neg_counts@, k));
            }
        }
    }
    proof {
        assert forall|k: int| 0 <= k < r.counts.len() implies #[trigger] r.counts.pos_in(k, k) == rows_in(x@, y@, prev_edge(r.edges@, k), r.edges@[k], true, x@.len() as int)
            && r.counts.neg_in(k, k) == rows_in(x@, y@, prev_edge(r.edges@, k), r.edges@[k], false, x@.len() as int) by {
            assert(r.counts.cum_pos@[k] as int == prefix_sum(pos_counts@, k + 1));
            assert(r.counts.cum_neg@[k] as int == prefix_sum(neg_counts@, k + 1));
            assert(prefix_sum(pos_counts@, k + 1) == prefix_sum(pos_counts@, k) + pos_counts@[k]);
            assert(prefix_sum(neg_counts@, k + 1) == prefix_sum(neg_counts@, k) + neg_counts@[k]);
            if k > 0 {
                assert(r.counts.cum_pos@[k - 1] as int == prefix_sum(pos_counts@, k));
                assert(r.counts.cum_neg@[k - 1] as int == prefix_sum(neg_counts@, k));
            }
            assert(pos_counts@[k] == keys_in(pkeys@, prev_edge(edges@, k), edges@[k]));
            assert(neg_counts@[k] == keys_in(nkeys@, prev_edge(edges@, k), edges@[k]));
        }
        reveal(closed_groups);
        assert forall|m: int, k: int|
            #[trigger] is_prebin_target(r.counts.total_pos + r.counts.total_neg, m) && 0 <= k < r.counts.len() implies #[trigger] rows_below(
                x@,
                y@,
                prev_edge(r.edges@, k),
                r.edges@[k],
                true,
                x@.len() as int,
            ) + rows_below(x@, y@, prev_edge(r.edges@, k), r.edges@[k], false, x@.len() as int) < (r.counts.total_pos + r.counts.total_neg + m
                - 1) / m by {
            lemma_prebin_target_unique(total as int, m, target as int);
            let lo = prev_edge(edges@, k);
            let v = edges@[k];
            assert(keys_below(pkeys@, lo, v) + keys_below(nkeys@, lo, v) < chunk);
            if v != i64::MIN {
                assert(keys_in(pkeys@, lo, (v - 1) as i64) == rows_in(x@, y@, lo, (v - 1) as i64, true, n as int));
                assert(keys_in(nkeys@, lo, (v - 1) as i64) == rows_in(x@, y@, lo, (v - 1) as i64, false, n as int));
            }
        }
        assert forall|k: int| 0 <= k < r.counts.len() implies present_value(x@, #[trigger] r.edges@[k]) by {
            let e = edges@[k];
            assert(pkeys@.contains(e) || nkeys@.contains(e));
            if pkeys@.contains(e) {
                assert(p0.contains(e));
                let j = choose|j: int| 0 <= j < p0.len() && p0[j] == e;
                assert(present_value(x@, p0[j]));
            } else {
                assert(n0.contains(e));
                let j = choose|j: int| 0 <= j < n0.len() && n0[j] == e;
                assert(present_value(x@, n0[j]));
            }
        }
        assert forall|m: int| #[trigger] is_prebin_target(r.counts.total_pos + r.counts.total_neg, m) implies r.counts.len() <= m && forall|k: int|
            0 <= k < r.counts.len() - 1 ==> #[trigger] r.counts.count_in(k, k) >= (r.counts.total_pos + r.counts.total_neg + m - 1) / m by {
            lemma_prebin_target_unique(total as int, m, target as int);
            assert(m == target);
            assert(chunk as int == (total as int + m - 1) / m);
            assert forall|k: int| 0 <= k < r.counts.len() - 1 implies #[trigger] r.counts.count_in(k, k) >= (r.counts.total_pos + r.counts.total_neg + m - 1) / m by {
                assert(r.counts.count_in(k, k) == pos_counts@[k] + neg_counts@[k]);
            }
        }
        if r.counts.len() > 0 {
            assert forall|i: int| 0 <= i < x@.len() && (#[trigger] x@[i]) is Some implies x@[i]->Some_0 <= r.edges@.last() by {
                let e = x@[i]->Some_0;
                assert(p0.contains(e) || n0.contains(e));
                if pkeys@.contains(e) {
                    let j = choose|j: int| 0 <= j < pkeys@.len() && pkeys@[j] == e;
                    assert(pkeys@[j] <= edges@.last());
                } else {
                    let j = choose|j: int| 0 <= j < nkeys@.len() && nkeys@[j] == e;
                    assert(nkeys@[j] <= edges@.last());
                }
            }
        }
    }
    r
}

/// A fitted numerical bin. An ordinary bin holds the values in
/// `(range.0, range.1]`, `None` standing for minus and plus infinity; the
/// missing bin holds the missing values and has the range `(None, None)`.
#[derive(Clone, Copy, Debug)]
pub struct NumBin {
    pub bin_id: usize,
    pub range: (Option<i64>, Option<i64>),
    pub pos: u64,
    pub neg: u64,
    pub is_missing: bool,
}

/// The number of ordinary bins: all but a trailing missing bin.
pub open spec fn ordinary_len(bins: Seq<NumBin>) -> int {
    if bins.len() > 0 && bins.last().is_missing {
        bins.len() - 1
    } else {
        bins.len() as int
    }
}

/// The value `v` lies in the half-open range `(lo, hi]`.
pub open spec fn in_range(r: (Option<i64>, Option<i64>), v: i64) -> bool {
    &&& match r.0 {
        None => true,
        Some(lo) => lo < v,
    }
    &&& match r.1 {
        None => true,
        Some(hi) => v <= hi,
    }
}

/// Upper edge of an ordinary bin that is not the last one.
pub open spec fn right_edge(bins: Seq<NumBin>, b: int) -> i64 {
    bins[b].range.1->Some_0
}

/// The bins partition the real line: the ordinary ones come first with dense
/// ids, the first starts at minus infinity, the last ends at plus infinity,
/// each starts where the one before ends, and the edges ascend. At most one
/// bin, the last, is the missing bin.
pub open spec fn num_bins_wf(bins: Seq<NumBin>) -> bool {
    let k = ordinary_len(bins);
    &&& k >= 1
    &&& forall|b: int| 0 <= b < k ==> !(#[trigger] bins[b]).is_missing && bins[b].bin_id == b
    &&& k < bins.len() ==> bins[k].bin_id == k && bins[k].range == (None::<i64>, None::<i64>)
    &&& bins[0].range.0 is None
    &&& bins[k - 1].range.1 is None
    &&& forall|b: int| 0 <= b < k - 1 ==> (#[trigger] bins[b]).range.1 is Some && bins[b + 1].range.0 == bins[b].range.1
    &&& forall|b1: int, b2: int| 0 <= b1 < b2 < k - 1 ==> #[trigger] right_edge(bins, b1) < #[trigger] right_edge(bins, b2)
}

/// Sum of the positives of all bins.
pub open spec fn sum_pos(bins: Seq<NumBin>) -> int {
    prefix_sum(bins.map_values(|b: NumBin| b.pos), bins.len() as int)
}

/// Sum of the negatives of all bins.
pub open spec fn sum_neg(bins: Seq<NumBin>) -> int {
    prefix_sum(bins.map_values(|b: NumBin| b.neg), bins.len() as int)
}

/// Ordinary bin `b` of the partition that splits `s` make of the prebins of `stats`.
pub open spec fn num_bin_of(stats: PreNumBinStats, s: Seq<usize>, b: int) -> NumBin {
    let n = stats.counts.len();
    let i = bin_start(s, b);
    let j = bin_end(s, n, b);
    NumBin {
        bin_id: b as usize,
        range: (
            if i == 0 { None } else { Some(stats.edges@[i - 1]) },
            if j == n - 1 { None } else { Some(stats.edges@[j]) },
        ),
        pos: stats.counts.pos_in(i, j) as u64,
        neg: stats.counts.neg_in(i, j) as u64,
        is_missing: false,
    }
}

/// The bin that collects the missing values of `stats`.
pub open spec fn missing_num_bin(stats: PreNumBinStats, id: int) -> NumBin {
    NumBin {
        bin_id: id as usize,
        range: (None, None),
        pos: stats.missing_pos,
        neg: stats.missing_neg,
        is_missing: true,
    }
}

/// `bins` are the bins that splits `s` make of `stats`, followed by the
/// missing bin exactly when some value was missing.
pub open spec fn num_bins_from(stats: PreNumBinStats, s: Seq<usize>, bins: Seq<NumBin>) -> bool {
    let k = s.len() + 1;
    let has_missing = stats.missing_pos + stats.missing_neg > 0;
    &&& bins.len() == if has_missing { k + 1 } else { k }
    &&& forall|b: int| 0 <= b < k ==> #[trigger] bins[b] == num_bin_of(stats, s, b)
    &&& has_missing ==> bins[k as int] == missing_num_bin(stats, k as int)
}

proof fn lemma_push_sums(bins: Seq<NumBin>, x: NumBin)
    ensures
        sum_pos(bins.push(x)) == sum_pos(bins) + x.pos,
        sum_neg(bins.push(x)) == sum_neg(bins) + x.neg,
{
    let f = |b: NumBin| b.pos;
    let g = |b: NumBin| b.neg;
    assert(bins.push(x).map_values(f) =~= bins.map_values(f).push(x.pos));
    assert(bins.push(x).map_values(g) =~= bins.map_values(g).push(x.neg));
    lemma_prefix_sum_push(bins.map_values(f), x.pos, bins.len() as int);
    lemma_prefix_sum_push(bins.map_values(g), x.neg, bins.len() as int);
}

/// Builds the bins that splits `splits` make of the prebins of `stats`.
pub fn reconstruct_bins(stats: &PreNumBinStats, splits: &Vec<usize>) -> (r: Vec<NumBin>)
    requires
        stats.wf(),
        valid_splits(splits@, stats.counts.len()),
        splits@.len() < stats.counts.len(),
    ensures
        num_bins_from(*stats, splits@, r@),
        num_bins_wf(r@),
        ordinary_len(r@) == splits@.len() + 1,
        sum_pos(r@) == stats.counts.total_pos + stats.missing_pos,
        sum_neg(r@) == stats.counts.total_neg + stats.missing_neg,
{
    let n = stats.edges.len();
    let k = splits.len() + 1;
    let ghost s = splits@;
    proof {
        lemma_splits_ascending(s, n as int);
    }
    let mut bins: Vec<NumBin> = Vec::new();
    let mut start: usize = 0;
    let mut b: usize = 0;
    while b < k
        invariant
            stats.wf(),
            n == stats.counts.len(),
            n >= 1,
            s == splits@,
            valid_splits(s, n as int),
            forall|a1: int, a2: int| 0 <= a1 < a2 < s.len() ==> #[trigger] s[a1] < #[trigger] s[a2],
            k == s.len() + 1,
            b <= k,
            bins@.len() == b,
            b < k ==> start == bin_start(s, b as int),
            forall|a: int| 0 <= a < b ==> #[trigger] bins@[a] == num_bin_of(*stats, s, a),
            sum_pos(bins@) == stats.counts.cpos(if b == 0 { -1 } else { bin_end(s, n as int, b - 1) }),
            sum_neg(bins@) == stats.counts.cneg(if b == 0 { -1 } else { bin_end(s, n as int, b - 1) }),
        decreases k - b,
    {
        let end = if b == k - 1 {
            n - 1
        } else {
            splits[b]
        };
        proof {
            if b > 0 && b < k - 1 {
                assert(s[b - 1] < s[b as int]);
            }
        }
        let (p, q) = stats.get_counts(start, end);
        let left = if start == 0 {
            None
        } else {
            Some(stats.edges[start - 1])
        };
        let right = if end == n - 1 {
            None
        } else {
            Some(stats.edges[end])
        };
        let bin = NumBin { bin_id: b, range: (left, right), pos: p, neg: q, is_missing: false };
        proof {
            lemma_push_sums(bins@, bin);
            assert(bin == num_bin_of(*stats, s, b as int));
        }
        bins.push(bin);
        start = end + 1;
        b = b + 1;
    }
    if stats.missing_pos + stats.missing_neg > 0 {
        let bin = NumBin {
            bin_id: k,
            range: (None, None),
            pos: stats.missing_pos,
            neg: stats.missing_neg,
            is_missing: true,
        };
        proof {
            lemma_push_sums(bins@, bin);
        }
        bins.push(bin);
    }
    proof {
        let r = bins@;
        assert(ordinary_len(r) == k);
        assert forall|b1: int, b2: int| 0 <= b1 < b2 < k - 1 implies #[trigger] right_edge(r, b1) < #[trigger] right_edge(r, b2) by {
            assert(r[b1] == num_bin_of(*stats, s, b1));
            assert(r[b2] == num_bin_of(*stats, s, b2));
            assert(s[b1] < s[b2]);
        }
        assert forall|b1: int| 0 <= b1 < k - 1 implies (#[trigger] r[b1]).range.1 is Some && r[b1 + 1].range.0 == r[b1].range.1 by {
            assert(r[b1] == num_bin_of(*stats, s, b1));
            assert(r[b1 + 1] == num_bin_of(*stats, s, b1 + 1));
        }
        assert(r[0] == num_bin_of(*stats, s, 0));
        assert(r[k - 1] == num_bin_of(*stats, s, k - 1));
    }
    bins
}

/// Every ordinary bin holds between `lim.min_count` and `lim.max_count` samples.
pub open spec fn num_bins_sized(bins: Seq<NumBin>, lim: SizeLimits) -> bool {
    forall|b: int|
        0 <= b < ordinary_len(bins) ==> lim.min_count <= (#[trigger] bins[b]).pos + bins[b].neg <= lim.max_count
}

/// The WoE of consecutive ordinary bins follows `trend`.
pub open spec fn num_bins_follow(bins: Seq<NumBin>, trend: Trend) -> bool {
    forall|b: int|
        0 < b < ordinary_len(bins) ==> match trend {
            Trend::Increasing => woe_le(bins[b - 1].pos as int, bins[b - 1].neg as int, (#[trigger] bins[b]).pos as int, bins[b].neg as int),
            Trend::Decreasing => woe_le((#[trigger] bins[b]).pos as int, bins[b].neg as int, bins[b - 1].pos as int, bins[b - 1].neg as int),
        }
}

/// What a fit on `stats` yields: a partition of the line into at most
/// `max_bins` ordinary bins built from whole prebins, whose sizes lie within
/// `lim` and whose WoE is monotonic (unless one bin is all that can be had),
/// plus the missing bin exactly when a value was missing; the counts add up
/// to the totals.
pub open spec fn num_fit_ok(max_bins: int, lim: SizeLimits, stats: PreNumBinStats, bins: Seq<NumBin>) -> bool {
    let k = ordinary_len(bins);
    &&& num_bins_wf(bins)
    &&& k <= max_bins
    &&& sum_pos(bins) == stats.counts.total_pos + stats.missing_pos
    &&& sum_neg(bins) == stats.counts.total_neg + stats.missing_neg
    &&& (k < bins.len()) == (stats.missing_pos + stats.missing_neg > 0)
    &&& k < bins.len() ==> bins[k] == missing_num_bin(stats, k)
    &&& k == 1 || (num_bins_sized(bins, lim) && (num_bins_follow(bins, Trend::Increasing) || num_bins_follow(bins, Trend::Decreasing)))
    &&& stats.counts.len() >= 1 ==> exists|s: Seq<usize>| valid_splits(s, stats.counts.len()) && #[trigger] num_bins_from(stats, s, bins)
}

/// The splits a numerical fit keeps: the optimizer's result under an
/// increasing and under a decreasing WoE trend. A trend whose bins meet the
/// limits wins over one that fell back to a single bin; otherwise the larger
/// total gain wins, increasing on a tie.
pub open spec fn chosen_splits(stats: PreNumBinStats, g: Seq<Vec<i64>>, max_bins: int, lim: SizeLimits) -> Seq<usize> {
    let n = stats.counts.len();
    let inc = optimum(stats.counts, g, max_bins, lim, Some(Trend::Increasing));
    let dec = optimum(stats.counts, g, max_bins, lim, Some(Trend::Decreasing));
    let use_inc = if (inc.0 is Some) != (dec.0 is Some) {
        inc.0 is Some
    } else {
        total_gain(g, inc.1, n) >= total_gain(g, dec.1, n)
    };
    if use_inc { inc.1 } else { dec.1 }
}

/// The table a fit on `stats` yields: the bins of the chosen splits (and the
/// missing bin), or, with no present value, one empty bin over the whole line.
pub open spec fn num_fit_table(stats: PreNumBinStats, g: Seq<Vec<i64>>, max_bins: int, lim: SizeLimits, bins: Seq<NumBin>) -> bool {
    if stats.counts.len() == 0 {
        let b0 = NumBin { bin_id: 0, range: (None, None), pos: 0, neg: 0, is_missing: false };
        bins == if stats.missing_pos + stats.missing_neg > 0 { seq![b0, missing_num_bin(stats, 1)] } else { seq![b0] }
    } else {
        num_bins_from(stats, chosen_splits(stats, g, max_bins, lim), bins)
    }
}

/// The bin index a value maps to: the ordinary bin whose range holds it, or
/// for a missing value the missing bin (`None` where there is none).
pub open spec fn num_index_ok(bins: Seq<NumBin>, v: Option<i64>, r: Option<usize>) -> bool {
    let k = ordinary_len(bins);
    match v {
        None => r == if k < bins.len() { Some(k as usize) } else { None::<usize> },
        Some(val) => r is Some && r->Some_0 < k && in_range(bins[r->Some_0 as int].range, val),
    }
}

/// Transforming `x` against `bins` gives `r`.
pub open spec fn num_transform_ok(bins: Seq<NumBin>, x: Seq<Option<i64>>, r: Seq<Option<usize>>) -> bool {
    &&& r.len() == x.len()
    &&& forall|i: int| 0 <= i < x.len() ==> num_index_ok(bins, x[i], #[trigger] r[i])
}

/// At most one ordinary bin holds a value.
pub proof fn lemma_bin_unique(bins: Seq<NumBin>, v: i64, b1: int, b2: int)
    requires
        num_bins_wf(bins),
        0 <= b1 < ordinary_len(bins),
        0 <= b2 < ordinary_len(bins),
        in_range(bins[b1].range, v),
        in_range(bins[b2].range, v),
    ensures
        b1 == b2,
{
    if b1 < b2 {
        assert(bins[b2].range.0 == bins[b2 - 1].range.1);
        if b1 < b2 - 1 {
            assert(right_edge(bins, b1) < right_edge(bins, b2 - 1));
        }
    } else if b2 < b1 {
        assert(bins[b1].range.0 == bins[b1 - 1].range.1);
        if b2 < b1 - 1 {
            assert(right_edge(bins, b2) < right_edge(bins, b1 - 1));
        }
    }
}

/// The ordinary bin whose range holds `val`, found by binary search on the
/// upper edges.
fn locate(bins: &Vec<NumBin>, k: usize, val: i64) -> (b: usize)
    requires
        num_bins_wf(bins@),
        k == ordinary_len(bins@),
    ensures
        b < k,
        in_range(bins@[b as int].range, val),
{
    let mut lo: usize = 0;
    let mut hi: usize = k - 1;
    while lo < hi
        invariant
            num_bins_wf(bins@),
            k == ordinary_len(bins@),
            lo <= hi < k,
            forall|b: int| 0 <= b < lo ==> #[trigger] right_edge(bins@, b) < val,
            hi == k - 1 || val <= right_edge(bins@, hi as int),
        decreases hi - lo,
    {
        let mid = lo + (hi - lo) / 2;
        assert(bins@[mid as int].range.1 is Some);
        let goes_below = match bins[mid].range.1 {
            Some(e) => val <= e,
            None => true,
        };
        if goes_below {
            hi = mid;
        } else {
            proof {
                assert forall|b: int| 0 <= b < mid + 1 implies #[trigger] right_edge(bins@, b) < val by {
                    if b < mid {
                        assert(right_edge(bins@, b) < right_edge(bins@, mid as int));
                    }
                }
            }
            lo = mid + 1;
        }
    }
    proof {
        if lo > 0 {
            assert(bins@[lo as int].range.0 == bins@[lo - 1].range.1);
            assert(right_edge(bins@, lo - 1) < val);
        }
    }
    lo
}

/// Each present value maps to the one ordinary bin whose range holds it.
pub proof fn lemma_num_transform_picks_holder(bins: Seq<NumBin>, x: Seq<Option<i64>>, r: Seq<Option<usize>>)
    requires
        num_bins_wf(bins),
        num_transform_ok(bins, x, r),
    ensures
        forall|i: int, b: int|
            0 <= i < x.len() && x[i] is Some && 0 <= b < ordinary_len(bins) && #[trigger] in_range(bins[b].range, x[i]->Some_0)
                ==> r[i] == Some(b as usize),
{
    assert forall|i: int, b: int|
        0 <= i < x.len() && x[i] is Some && 0 <= b < ordinary_len(bins) && #[trigger] in_range(bins[b].range, x[i]->Some_0)
        implies r[i] == Some(b as usize) by {
        assert(num_index_ok(bins, x[i], r[i]));
        lemma_bin_unique(bins, x[i]->Some_0, b, r[i]->Some_0 as int);
    }
}

fn copy_bins(v: &Vec<NumBin>) -> (r: Vec<NumBin>)
    ensures
        r@ == v@,
{
    let mut r: Vec<NumBin> = Vec::new();
    let mut i: usize = 0;
    while i < v.len()
        invariant
            i <= v@.len(),
            r@ == v@.subrange(0, i as int),
        decreases v@.len() - i,
    {
        r.push(v[i]);
        i = i + 1;
        proof {
            assert(r@ =~= v@.subrange(0, i as int));
        }
    }
    proof {
        assert(r@ =~= v@);
    }
    r
}

/// Bins a numerical predictor: `min_bin_pct` and `max_bin_pct` are shares of
/// the present samples in millionths (`PCT_SCALE` is the whole).
pub struct NumericalBinning {
    pub max_bins: usize,
    pub min_bin_pct: u32,
    pub max_bin_pct: u32,
    pub _bins: Option<Vec<NumBin>>,
}

impl NumericalBinning {
    /// A fitted table, where there is one, is a partition.
    pub open spec fn wf(&self) -> bool {
        self._bins is Some ==> num_bins_wf(self._bins->Some_0@)
    }

    /// The size limits that apply to the prebins of `stats`.
    pub open spec fn limits(&self, stats: PreNumBinStats) -> SizeLimits {
        limits_of(stats.counts.total_pos + stats.counts.total_neg, self.min_bin_pct as int, self.max_bin_pct as int)
    }

    /// An unfitted binner with the given parameters, taken as they are.
    pub fn new(max_bins: usize, min_bin_pct: u32, max_bin_pct: u32) -> (r: Self)
        ensures
            r.max_bins == max_bins,
            r.min_bin_pct == min_bin_pct,
            r.max_bin_pct == max_bin_pct,
            r._bins is None,
            r.wf(),
    {
        NumericalBinning { max_bins, min_bin_pct, max_bin_pct, _bins: None }
    }

    /// An unfitted binner, or `InvalidConfig` where `max_bins` is 0, the
    /// minimum share is not below the maximum, or the maximum exceeds the whole.
    pub fn pynew(max_bins: usize, min_bin_pct: u32, max_bin_pct: u32) -> (r: Result<Self, BinningError>)
        ensures
            match r {
                Ok(b) => {
                    &&& max_bins >= 1 && min_bin_pct < max_bin_pct && max_bin_pct <= PCT_SCALE
                    &&& b.max_bins == max_bins && b.min_bin_pct == min_bin_pct && b.max_bin_pct == max_bin_pct
                    &&& b._bins is None
                    &&& b.wf()
                },
                Err(e) => e == BinningError::InvalidConfig
                    && !(max_bins >= 1 && min_bin_pct < max_bin_pct && max_bin_pct <= PCT_SCALE),
            },
    {
        if min_bin_pct >= max_bin_pct || max_bin_pct > PCT_SCALE || max_bins == 0 {
            return Err(BinningError::InvalidConfig);
        }
        Ok(Self::new(max_bins, min_bin_pct, max_bin_pct))
    }

    /// Checks the inputs of a fit and forms the prebins: `InvalidInput` where
    /// `x` and `y` differ in length, are empty, or a target is not 0 or 1.
    #[verifier::spinoff_prover]
    pub fn prebinning(&self, x: &Vec<Option<i64>>, y: &Vec<i32>) -> (r: Result<PreNumBinStats, BinningError>)
        requires
            x@.len() < COUNT_MAX,
        ensures
            match r {
                Ok(stats) => {
                    &&& x@.len() == y@.len() && x@.len() > 0 && binary_targets(y@)
                    &&& stats.wf()
                    &&& stats.counts.total_pos == present_pos(present_at(x@), y@, x@.len() as int)
                    &&& stats.counts.total_neg == present_neg(present_at(x@), y@, x@.len() as int)
                    &&& stats.missing_pos == present_pos(missing_at(x@), y@, x@.len() as int)
                    &&& stats.missing_neg == present_neg(missing_at(x@), y@, x@.len() as int)
                    &&& forall|k: int|
                        0 <= k < stats.counts.len() ==> #[trigger] stats.counts.pos_in(k, k)
                            == rows_in(x@, y@, prev_edge(stats.edges@, k), stats.edges@[k], true, x@.len() as int)
                            && stats.counts.neg_in(k, k) == rows_in(x@, y@, prev_edge(stats.edges@, k), stats.edges@[k], false, x@.len() as int)
                    &&& stats.counts.len() > 0 ==> forall|i: int|
                        0 <= i < x@.len() && (#[trigger] x@[i]) is Some ==> x@[i]->Some_0 <= stats.edges@.last()
                    &&& forall|k: int| 0 <= k < stats.counts.len() ==> present_value(x@, #[trigger] stats.edges@[k])
                    &&& forall|m: int|
                        #[trigger] is_prebin_target(stats.counts.total_pos + stats.counts.total_neg, m) ==> stats.counts.len() <= m
                            && forall|k: int|
                            0 <= k < stats.counts.len() - 1 ==> #[trigger] stats.counts.count_in(k, k)
                                >= (stats.counts.total_pos + stats.counts.total_neg + m - 1) / m
                    &&& forall|m: int, k: int|
                        #[trigger] is_prebin_target(stats.counts.total_pos + stats.counts.total_neg, m) && 0 <= k < stats.counts.len()
                            ==> #[trigger] rows_below(x@, y@, prev_edge(stats.edges@, k), stats.edges@[k], true, x@.len() as int)
                            + rows_below(x@, y@, prev_edge(stats.edges@, k), stats.edges@[k], false, x@.len() as int)
                            < (stats.counts.total_pos + stats.counts.total_neg + m - 1) / m
                },
                Err(e) => e == BinningError::InvalidInput
                    && !(x@.len() == y@.len() && x@.len() > 0 && binary_targets(y@)),
            },
    {
        if x.len() != y.len() || x.len() == 0 {
            return Err(BinningError::InvalidInput);
        }
        let mut i: usize = 0;
        while i < y.len()
            invariant
                i <= y@.len(),
                forall|j: int| 0 <= j < i ==> (#[trigger] y@[j] == 0 || y@[j] == 1),
            decreases y@.len() - i,
        {
            if y[i] != 0 && y[i] != 1 {
                return Err(BinningError::InvalidInput);
            }
            i = i + 1;
        }
        Ok(prebinning(x, y))
    }

    /// Fits bins on the prebins `stats`, with `gains[i][j]` the gain of one bin
    /// spanning prebins `i..=j`. Both WoE trends are optimized; the one with
    /// the larger total gain wins, increasing on a tie.
    #[verifier::spinoff_prover]
    #[verifier::rlimit(100)]
    pub fn execute_fit(&self, stats: &PreNumBinStats, gains: &Vec<Vec<i64>>) -> (r: Vec<NumBin>)
        requires
            self.max_bins >= 1,
            stats.wf(),
            gains_wf(gains@, stats.counts.len()),
        ensures
            num_fit_ok(self.max_bins as int, self.limits(*stats), *stats, r@),
            num_fit_table(*stats, gains@, self.max_bins as int, self.limits(*stats), r@),
            stats.counts.len() >= 1 && crate::optimizer::size_ok(stats.counts, self.limits(*stats), 0, stats.counts.len() - 1)
                ==> num_bins_sized(r@, self.limits(*stats)) && (num_bins_follow(r@, Trend::Increasing) || num_bins_follow(r@, Trend::Decreasing)),
    {
        let n = stats.edges.len();
        if n == 0 {
            let mut bins: Vec<NumBin> = Vec::new();
            bins.push(NumBin { bin_id: 0, range: (None, None), pos: 0, neg: 0, is_missing: false });
            if stats.missing_pos + stats.missing_neg > 0 {
                bins.push(NumBin {
                    bin_id: 1,
                    range: (None, None),
                    pos: stats.missing_pos,
                    neg: stats.missing_neg,
                    is_missing: true,
                });
            }
            proof {
                let b0 = NumBin { bin_id: 0, range: (None, None), pos: 0, neg: 0, is_missing: false };
                lemma_push_sums(Seq::<NumBin>::empty(), b0);
                if stats.missing_pos + stats.missing_neg > 0 {
                    lemma_push_sums(seq![b0], bins@[1]);
                    assert(bins@ =~= seq![b0].push(bins@[1]));
                } else {
                    assert(bins@ =~= Seq::<NumBin>::empty().push(b0));
                }
                if stats.missing_pos + stats.missing_neg > 0 {
                    assert(bins@ =~= seq![b0, missing_num_bin(*stats, 1)]);
                } else {
                    assert(bins@ =~= seq![b0]);
                }
            }
            return bins;
        }
        let lim = size_limits(stats.counts.total_pos + stats.counts.total_neg, self.min_bin_pct, self.max_bin_pct);
        let (inc_met, inc_total, inc_splits) = optimize(&stats.counts, gains, self.max_bins, lim, Some(Trend::Increasing));
        let (dec_met, dec_total, dec_splits) = optimize(&stats.counts, gains, self.max_bins, lim, Some(Trend::Decreasing));
        let use_inc = if inc_met != dec_met {
            inc_met
        } else {
            inc_total >= dec_total
        };
        let (met, splits, trend) = if use_inc {
            (inc_met, inc_splits, Trend::Increasing)
        } else {
            (dec_met, dec_splits, Trend::Decreasing)
        };
        let bins = reconstruct_bins(stats, &splits);
        proof {
            let s = splits@;
            let k = s.len() + 1;
            assert(ordinary_len(bins@) == k);
            assert(splits@ == chosen_splits(*stats, gains@, self.max_bins as int, lim));
            if met {
                lemma_met_bins(*stats, s, lim, trend, bins@);
            }
            assert(num_bins_from(*stats, s, bins@));
        }
        bins
    }

    /// Fits on `stats` and `gains` (see `execute_fit`) and keeps the bins,
    /// replacing any earlier table.
    pub fn fit(&mut self, stats: &PreNumBinStats, gains: &Vec<Vec<i64>>) -> (r: Vec<NumBin>)
        requires
            old(self).max_bins >= 1,
            stats.wf(),
            gains_wf(gains@, stats.counts.len()),
        ensures
            final(self).max_bins == old(self).max_bins,
            final(self).min_bin_pct == old(self).min_bin_pct,
            final(self).max_bin_pct == old(self).max_bin_pct,
            final(self)._bins is Some,
            final(self)._bins->Some_0@ == r@,
            final(self).wf(),
            num_fit_ok(old(self).max_bins as int, old(self).limits(*stats), *stats, r@),
            num_fit_table(*stats, gains@, old(self).max_bins as int, old(self).limits(*stats), r@),
            stats.counts.len() >= 1 && crate::optimizer::size_ok(stats.counts, old(self).limits(*stats), 0, stats.counts.len() - 1)
                ==> num_bins_sized(r@, old(self).limits(*stats)) && (num_bins_follow(r@, Trend::Increasing) || num_bins_follow(r@, Trend::Decreasing)),
    {
        let bins = self.execute_fit(stats, gains);
        self._bins = Some(copy_bins(&bins));
        bins
    }

    /// Maps each value of `x` to its bin in `bins`.
    pub fn execute_transform(&self, x: &Vec<Option<i64>>, bins: &Vec<NumBin>) -> (r: Vec<Option<usize>>)
        requires
            num_bins_wf(bins@),
        ensures
            num_transform_ok(bins@, x@, r@),
    {
        let k: usize = if bins.len() > 0 && bins[bins.len() - 1].is_missing {
            bins.len() - 1
        } else {
            bins.len()
        };
        let missing: Option<usize> = if k < bins.len() {
            Some(k)
        } else {
            None
        };
        let mut out: Vec<Option<usize>> = Vec::new();
        let mut i: usize = 0;
        while i < x.len()
            invariant
                num_bins_wf(bins@),
                k == ordinary_len(bins@),
                missing == if k < bins@.len() { Some(k) } else { None::<usize> },
                i <= x@.len(),
                out@.len() == i,
                forall|j: int| 0 <= j < i ==> num_index_ok(bins@, x@[j], #[trigger] out@[j]),
            decreases x@.len() - i,
        {
            let idx = match x[i] {
                None => missing,
                Some(v) => Some(locate(bins, k, v)),
            };
            out.push(idx);
            i = i + 1;
        }
        out
    }

    /// Maps each value of `x` to its fitted bin: `NotFitted` before a fit.
    pub fn transform(&self, x: &Vec<Option<i64>>) -> (r: Result<Vec<Option<usize>>, BinningError>)
        requires
            self.wf(),
        ensures
            match r {
                Ok(out) => self._bins is Some && num_transform_ok(self._bins->Some_0@, x@, out@),
                Err(e) => e == BinningError::NotFitted && self._bins is None,
            },
    {
        match &self._bins {
            None => Err(BinningError::NotFitted),
            Some(bins) => Ok(self.execute_transform(x, bins)),
        }
    }

    /// Fits on `stats` and `gains`, then maps `x` (the values the prebins were
    /// formed from) to the fitted bins.
    pub fn fit_transform(&mut self, stats: &PreNumBinStats, gains: &Vec<Vec<i64>>, x: &Vec<Option<i64>>) -> (r: Vec<Option<usize>>)
        requires
            old(self).max_bins >= 1,
            stats.wf(),
            gains_wf(gains@, stats.counts.len()),
        ensures
            final(self)._bins is Some,
            final(self).wf(),
            num_fit_ok(old(self).max_bins as int, old(self).limits(*stats), *stats, final(self)._bins->Some_0@),
            num_fit_table(*stats, gains@, old(self).max_bins as int, old(self).limits(*stats), final(self)._bins->Some_0@),
            final(self).max_bins == old(self).max_bins,
            final(self).min_bin_pct == old(self).min_bin_pct,
            final(self).max_bin_pct == old(self).max_bin_pct,
            num_transform_ok(final(self)._bins->Some_0@, x@, r@),
    {
        self.fit(stats, gains);
        match self.transform(x) {
            Ok(out) => out,
            Err(_) => Vec::new(),
        }
    }

    /// The fitted bins: `NotFitted` before a fit.
    pub fn bins(&self) -> (r: Result<Vec<NumBin>, BinningError>)
        ensures
            match r {
                Ok(b) => self._bins is Some && b@ == self._bins->Some_0@,
                Err(e) => e == BinningError::NotFitted && self._bins is None,
            },
    {
        match &self._bins {
            None => Err(BinningError::NotFitted),
            Some(bins) => Ok(copy_bins(bins)),
        }
    }
}

/// Bins built from splits that meet the limits and the trend do so too.
proof fn lemma_met_bins(stats: PreNumBinStats, s: Seq<usize>, lim: SizeLimits, trend: Trend, bins: Seq<NumBin>)
    requires
        stats.wf(),
        valid_splits(s, stats.counts.len()),
        s.len() < stats.counts.len(),
        num_bins_from(stats, s, bins),
        ordinary_len(bins) == s.len() + 1,
        bins_sized(stats.counts, lim, s, stats.counts.len()),
        bins_follow(stats.counts, Some(trend), s, stats.counts.len()),
    ensures
        num_bins_sized(bins, lim),
        num_bins_follow(bins, trend),
{
    let n = stats.counts.len();
    let k = s.len() + 1;
    assert forall|b: int| 0 <= b < k implies lim.min_count <= (#[trigger] bins[b]).pos + bins[b].neg <= lim.max_count by {
        assert(bins[b] == num_bin_of(stats, s, b));
        lemma_bin_bounds(stats, s, b);
        assert(crate::optimizer::size_ok(stats.counts, lim, bin_start(s, b), bin_end(s, n, b)));
    }
    assert forall|b: int| 0 < b < k implies match trend {
        Trend::Increasing => woe_le(bins[b - 1].pos as int, bins[b - 1].neg as int, (#[trigger] bins[b]).pos as int, bins[b].neg as int),
        Trend::Decreasing => woe_le((#[trigger] bins[b]).pos as int, bins[b].neg as int, bins[b - 1].pos as int, bins[b - 1].neg as int),
    } by {
        assert(bins[b] == num_bin_of(stats, s, b));
        assert(bins[b - 1] == num_bin_of(stats, s, b - 1));
        lemma_bin_bounds(stats, s, b);
        lemma_bin_bounds(stats, s, b - 1);
        assert(crate::optimizer::trend_ok(stats.counts, Some(trend), bin_start(s, b - 1), bin_end(s, n, b - 1), bin_start(s, b), bin_end(s, n, b)));
    }
}

proof fn lemma_bin_bounds(stats: PreNumBinStats, s: Seq<usize>, b: int)
    requires
        stats.wf(),
        valid_splits(s, stats.counts.len()),
        0 <= b <= s.len(),
    ensures
        num_bin_of(stats, s, b).pos as int == stats.counts.pos_in(bin_start(s, b), bin_end(s, stats.counts.len(), b)),
        num_bin_of(stats, s, b).neg as int == stats.counts.neg_in(bin_start(s, b), bin_end(s, stats.counts.len(), b)),
{
    let n = stats.counts.len();
    lemma_splits_ascending(s, n);
    if 0 < b < s.len() {
        assert(s[b - 1] < s[b]);
    }
    stats.counts.lemma_range(bin_start(s, b), bin_end(s, n, b));
}

/// Fitting keeps every row: over all bins of a fit on the prebins of `x` and
/// `y`, the positives add up to the rows whose target is 1 and the counts to
/// the number of rows.
pub proof fn lemma_num_fit_keeps_rows(
    x: Seq<Option<i64>>,
    y: Seq<i32>,
    stats: PreNumBinStats,
    max_bins: int,
    lim: SizeLimits,
    bins: Seq<NumBin>,
)
    requires
        x.len() == y.len(),
        stats.counts.total_pos == present_pos(present_at(x), y, x.len() as int),
        stats.counts.total_neg == present_neg(present_at(x), y, x.len() as int),
        stats.missing_pos == present_pos(missing_at(x), y, x.len() as int),
        stats.missing_neg == present_neg(missing_at(x), y, x.len() as int),
        num_fit_ok(max_bins, lim, stats, bins),
    ensures
        sum_pos(bins) == positives(y, y.len() as int),
        sum_pos(bins) + sum_neg(bins) == x.len(),
{
    assert forall|i: int| #[trigger] missing_at(x)(i) == !present_at(x)(i) by {}
    lemma_split_counts(present_at(x), missing_at(x), y, x.len() as int);
}

/// A fit on the prebins of `x` and `y` has a missing bin exactly when some
/// value of `x` is missing.
pub proof fn lemma_num_missing_bin(
    x: Seq<Option<i64>>,
    y: Seq<i32>,
    stats: PreNumBinStats,
    max_bins: int,
    lim: SizeLimits,
    bins: Seq<NumBin>,
)
    requires
        x.len() == y.len(),
        stats.missing_pos == present_pos(missing_at(x), y, x.len() as int),
        stats.missing_neg == present_neg(missing_at(x), y, x.len() as int),
        num_fit_ok(max_bins, lim, stats, bins),
    ensures
        (exists|b: int| 0 <= b < bins.len() && (#[trigger] bins[b]).is_missing)
            <==> exists|i: int| 0 <= i < x.len() && (#[trigger] x[i]) is None,
{
    lemma_some_present(missing_at(x), y, x.len() as int);
    let k = ordinary_len(bins);
    if exists|b: int| 0 <= b < bins.len() && (#[trigger] bins[b]).is_missing {
        let b = choose|b: int| 0 <= b < bins.len() && (#[trigger] bins[b]).is_missing;
        assert(b >= k);
    }
    if k < bins.len() {
        assert(bins[k].is_missing);
    }
    if exists|i: int| 0 <= i < x.len() && (#[trigger] x[i]) is None {
        let i = choose|i: int| 0 <= i < x.len() && (#[trigger] x[i]) is None;
        assert(missing_at(x)(i));
    }
    if exists|i: int| 0 <= i < x.len() && #[trigger] missing_at(x)(i) {
        let i = choose|i: int| 0 <= i < x.len() && #[trigger] missing_at(x)(i);
        assert(x[i] is None);
    }
}

/// Rows `0..m` whose value is present and lies in `range`, and whose target
/// is 1 (`pos`) or not (`!pos`).
pub open spec fn rows_in_range(x: Seq<Option<i64>>, y: Seq<i32>, range: (Option<i64>, Option<i64>), pos: bool, m: int) -> nat
    decreases m,
{
    if m <= 0 {
        0
    } else {
        rows_in_range(x, y, range, pos, m - 1) + if x[m - 1] is Some && in_range(range, x[m - 1]->Some_0)
            && ((y[m - 1] == 1) == pos) {
            1nat
        } else {
            0nat
        }
    }
}

proof fn lemma_rows_in_split(x: Seq<Option<i64>>, y: Seq<i32>, lo: Option<i64>, mid: i64, hi: i64, pos: bool, m: int)
    requires
        above(lo, mid),
        mid <= hi,
    ensures
        rows_in(x, y, lo, mid, pos, m) + rows_in(x, y, Some(mid), hi, pos, m) == rows_in(x, y, lo, hi, pos, m),
    decreases m,
{
    if m > 0 {
        lemma_rows_in_split(x, y, lo, mid, hi, pos, m - 1);
    }
}

proof fn lemma_rows_in_range_same(x: Seq<Option<i64>>, y: Seq<i32>, range: (Option<i64>, Option<i64>), lo: Option<i64>, hi: i64, pos: bool, m: int)
    requires
        forall|i: int| 0 <= i < m && (#[trigger] x[i]) is Some ==> in_range(range, x[i]->Some_0) == (above(lo, x[i]->Some_0) && x[i]->Some_0 <= hi),
    ensures
        rows_in_range(x, y, range, pos, m) == rows_in(x, y, lo, hi, pos, m),
    decreases m,
{
    if m > 0 {
        lemma_rows_in_range_same(x, y, range, lo, hi, pos, m - 1);
        if x[m - 1] is Some {
            assert(in_range(range, x[m - 1]->Some_0) == (above(lo, x[m - 1]->Some_0) && x[m - 1]->Some_0 <= hi));
        }
    }
}

/// The counts over prebins `i..=j` are the rows in `(prev_edge(i), edges[j]]`.
proof fn lemma_run_rows(x: Seq<Option<i64>>, y: Seq<i32>, stats: PreNumBinStats, i: int, j: int)
    requires
        stats.wf(),
        0 <= i <= j < stats.counts.len(),
        forall|k: int|
            0 <= k < stats.counts.len() ==> #[trigger] stats.counts.pos_in(k, k)
                == rows_in(x, y, prev_edge(stats.edges@, k), stats.edges@[k], true, x.len() as int)
                && stats.counts.neg_in(k, k) == rows_in(x, y, prev_edge(stats.edges@, k), stats.edges@[k], false, x.len() as int),
    ensures
        stats.counts.pos_in(i, j) == rows_in(x, y, prev_edge(stats.edges@, i), stats.edges@[j], true, x.len() as int),
        stats.counts.neg_in(i, j) == rows_in(x, y, prev_edge(stats.edges@, i), stats.edges@[j], false, x.len() as int),
    decreases j - i,
{
    if j > i {
        lemma_run_rows(x, y, stats, i, j - 1);
        assert(stats.counts.pos_in(j, j) == rows_in(x, y, prev_edge(stats.edges@, j), stats.edges@[j], true, x.len() as int));
        assert(stats.counts.neg_in(j, j) == rows_in(x, y, prev_edge(stats.edges@, j), stats.edges@[j], false, x.len() as int));
        assert(stats.edges@[j - 1] < stats.edges@[j]);
        if i > 0 {
            assert(stats.edges@[i - 1] < stats.edges@[j - 1]);
        }
        lemma_rows_in_split(x, y, prev_edge(stats.edges@, i), stats.edges@[j - 1], stats.edges@[j], true, x.len() as int);
        lemma_rows_in_split(x, y, prev_edge(stats.edges@, i), stats.edges@[j - 1], stats.edges@[j], false, x.len() as int);
    }
}

/// Each ordinary bin of a fit on the prebins of `x` and `y` counts exactly
/// the rows whose value lies in its range: its positives those with target 1,
/// its negatives the others.
pub proof fn lemma_num_bins_count_their_rows(
    x: Seq<Option<i64>>,
    y: Seq<i32>,
    stats: PreNumBinStats,
    max_bins: int,
    lim: SizeLimits,
    bins: Seq<NumBin>,
)
    requires
        stats.wf(),
        stats.counts.len() >= 1,
        forall|k: int|
            0 <= k < stats.counts.len() ==> #[trigger] stats.counts.pos_in(k, k)
                == rows_in(x, y, prev_edge(stats.edges@, k), stats.edges@[k], true, x.len() as int)
                && stats.counts.neg_in(k, k) == rows_in(x, y, prev_edge(stats.edges@, k), stats.edges@[k], false, x.len() as int),
        forall|i: int| 0 <= i < x.len() && (#[trigger] x[i]) is Some ==> x[i]->Some_0 <= stats.edges@.last(),
        num_fit_ok(max_bins, lim, stats, bins),
    ensures
        forall|b: int|
            0 <= b < ordinary_len(bins) ==> (#[trigger] bins[b]).pos == rows_in_range(x, y, bins[b].range, true, x.len() as int)
                && bins[b].neg == rows_in_range(x, y, bins[b].range, false, x.len() as int),
{
    let n = stats.counts.len();
    let s = choose|s: Seq<usize>| valid_splits(s, n) && #[trigger] num_bins_from(stats, s, bins);
    lemma_splits_ascending(s, n);
    assert forall|b: int| 0 <= b < ordinary_len(bins) implies (#[trigger] bins[b]).pos == rows_in_range(x, y, bins[b].range, true, x.len() as int)
        && bins[b].neg == rows_in_range(x, y, bins[b].range, false, x.len() as int) by {
        assert(bins[b] == num_bin_of(stats, s, b));
        let i = bin_start(s, b);
        let j = bin_end(s, n, b);
        if 0 < b < s.len() {
            assert(s[b - 1] < s[b]);
        }
        lemma_bin_bounds(stats, s, b);
        lemma_run_rows(x, y, stats, i, j);
        let lo = prev_edge(stats.edges@, i);
        let hi = stats.edges@[j];
        assert forall|r: int| 0 <= r < x.len() && (#[trigger] x[r]) is Some implies in_range(bins[b].range, x[r]->Some_0) == (above(lo, x[r]->Some_0) && x[r]->Some_0 <= hi) by {
            if j == n - 1 {
                assert(x[r]->Some_0 <= stats.edges@.last());
            }
        }
        lemma_rows_in_range_same(x, y, bins[b].range, lo, hi, true, x.len() as int);
        lemma_rows_in_range_same(x, y, bins[b].range, lo, hi, false, x.len() as int);
    }
}

/// A fit is a function of its inputs, and so is the transform after it: two
/// tables that a fit on the same prebins, gains and limits may yield are
/// equal, and mapping the same values against them gives the same indices.
/// So `fit_transform` yields what `fit` followed by `transform` yields.
#[verifier::spinoff_prover]
pub proof fn lemma_num_fit_transform_agree(
    stats: PreNumBinStats,
    g: Seq<Vec<i64>>,
    max_bins: int,
    lim: SizeLimits,
    b1: Seq<NumBin>,
    b2: Seq<NumBin>,
    x: Seq<Option<i64>>,
    r1: Seq<Option<usize>>,
    r2: Seq<Option<usize>>,
)
    requires
        num_fit_table(stats, g, max_bins, lim, b1),
        num_fit_table(stats, g, max_bins, lim, b2),
        num_bins_wf(b1),
        num_transform_ok(b1, x, r1),
        num_transform_ok(b2, x, r2),
    ensures
        b1 == b2,
        r1 == r2,
{
    if stats.counts.len() > 0 {
        let s = chosen_splits(stats, g, max_bins, lim);
        assert forall|b: int| 0 <= b < b1.len() implies b1[b] == b2[b] by {
            if b < s.len() + 1 {
                assert(b1[b] == num_bin_of(stats, s, b));
                assert(b2[b] == num_bin_of(stats, s, b));
            }
        }
        assert(b1 =~= b2);
    }
    assert forall|i: int| 0 <= i < x.len() implies r1[i] == r2[i] by {
        assert(num_index_ok(b1, x[i], r1[i]));
        assert(num_index_ok(b1, x[i], r2[i]));
        if x[i] is Some {
            lemma_bin_unique(b1, x[i]->Some_0, r1[i]->Some_0 as int, r2[i]->Some_0 as int);
        }
    }
    assert(r1 =~= r2);
}

} // verus!
