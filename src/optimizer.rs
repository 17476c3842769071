//! The dynamic-programming optimizer: it chooses contiguous bins over the
//! prebins that maximise the total gain under size and trend limits.
use vstd::prelude::*;
use crate::counts::{woe_at_most, woe_le, PrefixCounts};
use crate::grid::{grid_cells, grid_shape, Grid};

verus! {

/// The largest gain of a single bin (fixed point).
pub const GAIN_MAX: i64 = 0x100_0000_0000;

/// The largest number of prebins the optimizer takes.
pub const PREBIN_MAX: usize = 0x10_0000;

/// The direction that Weight of Evidence keeps across consecutive bins.
#[derive(PartialEq, Eq, Structural, Clone, Copy, Debug)]
pub enum Trend {
    Increasing,
    Decreasing,
}

/// The smallest and largest number of samples a bin may hold.
#[derive(Clone, Copy, Debug)]
pub struct SizeLimits {
    pub min_count: u64,
    pub max_count: u64,
}

/// Shares are given in millionths: `PCT_SCALE` stands for the whole.
pub const PCT_SCALE: u32 = 1_000_000;

/// `floor(total * pct / PCT_SCALE)`, capped at `u64::MAX`.
pub open spec fn share_of(total: int, pct: int) -> int {
    let v = total * pct / PCT_SCALE as int;
    if v > u64::MAX { u64::MAX as int } else { v }
}

/// Size limits of a bin over `total` samples: `floor(total * min_pct)` to
/// `floor(total * max_pct)`, the shares in millionths.
pub open spec fn limits_of(total: int, min_pct: int, max_pct: int) -> SizeLimits {
    SizeLimits { min_count: share_of(total, min_pct) as u64, max_count: share_of(total, max_pct) as u64 }
}

pub fn size_limits(total: u64, min_pct: u32, max_pct: u32) -> (r: SizeLimits)
    ensures
        r == limits_of(total as int, min_pct as int, max_pct as int),
{
    assert(total * min_pct <= u64::MAX * u32::MAX) by (nonlinear_arith)
        requires
            total <= u64::MAX,
            min_pct <= u32::MAX,
    ;
    assert(total * max_pct <= u64::MAX * u32::MAX) by (nonlinear_arith)
        requires
            total <= u64::MAX,
            max_pct <= u32::MAX,
    ;
    let lo: u128 = total as u128 * min_pct as u128 / PCT_SCALE as u128;
    let hi: u128 = total as u128 * max_pct as u128 / PCT_SCALE as u128;
    let min_count: u64 = if lo > u64::MAX as u128 { u64::MAX } else { lo as u64 };
    let max_count: u64 = if hi > u64::MAX as u128 { u64::MAX } else { hi as u64 };
    SizeLimits { min_count, max_count }
}

pub open spec fn size_ok(c: PrefixCounts, lim: SizeLimits, i: int, j: int) -> bool {
    lim.min_count <= c.count_in(i, j) <= lim.max_count
}

/// The WoE of prebins `i2..=j2` follows that of `i1..=j1` in the direction of `trend`.
pub open spec fn trend_ok(c: PrefixCounts, trend: Option<Trend>, i1: int, j1: int, i2: int, j2: int) -> bool {
    match trend {
        None => true,
        Some(Trend::Increasing) => woe_le(c.pos_in(i1, j1), c.neg_in(i1, j1), c.pos_in(i2, j2), c.neg_in(i2, j2)),
        Some(Trend::Decreasing) => woe_le(c.pos_in(i2, j2), c.neg_in(i2, j2), c.pos_in(i1, j1), c.neg_in(i1, j1)),
    }
}

/// The gain of one bin spanning prebins `i..=j`.
pub open spec fn gain(g: Seq<Vec<i64>>, i: int, j: int) -> int {
    g[i]@[j] as int
}

/// An `n` by `n` table of gains, each in `0..=GAIN_MAX`.
pub open spec fn gains_wf(g: Seq<Vec<i64>>, n: int) -> bool {
    &&& g.len() == n
    &&& forall|i: int| 0 <= i < n ==> (#[trigger] g[i])@.len() == n
    &&& forall|i: int, j: int| 0 <= i < n && 0 <= j < n ==> 0 <= #[trigger] gain(g, i, j) <= GAIN_MAX
}

/// First prebin of bin `b` under split indices `s`.
pub open spec fn bin_start(s: Seq<usize>, b: int) -> int {
    if b <= 0 {
        0
    } else {
        s[b - 1] + 1
    }
}

/// Last prebin of bin `b` under split indices `s`, over prebins `0..n`.
pub open spec fn bin_end(s: Seq<usize>, n: int, b: int) -> int {
    if b >= s.len() {
        n - 1
    } else {
        s[b] as int
    }
}

/// `s` are ascending split indices over prebins `0..n`: bin `b` covers
/// `bin_start(s, b)..=bin_end(s, n, b)`, and the `s.len() + 1` bins are
/// non-empty and cover all prebins in order.
pub open spec fn valid_splits(s: Seq<usize>, n: int) -> bool {
    &&& n >= 1
    &&& forall|b: int| 0 <= b < s.len() ==> #[trigger] s[b] < n - 1
    &&& forall|b: int| 0 < b < s.len() ==> s[b - 1] < #[trigger] s[b]
}

/// Split indices are ascending across any two positions, not only adjacent ones.
pub proof fn lemma_splits_ascending(s: Seq<usize>, n: int)
    requires
        valid_splits(s, n),
    ensures
        forall|a: int, b: int| 0 <= a < b < s.len() ==> #[trigger] s[a] < #[trigger] s[b],
{
    assert forall|a: int, b: int| 0 <= a < b < s.len() implies #[trigger] s[a] < #[trigger] s[b] by {
        lemma_splits_from(s, n, a, b);
    }
}

proof fn lemma_splits_from(s: Seq<usize>, n: int, a: int, b: int)
    requires
        valid_splits(s, n),
        0 <= a < b < s.len(),
    ensures
        s[a] < s[b],
    decreases b - a,
{
    if a + 1 < b {
        lemma_splits_from(s, n, a, b - 1);
    }
}

/// Every bin meets the size limits.
pub open spec fn bins_sized(c: PrefixCounts, lim: SizeLimits, s: Seq<usize>, n: int) -> bool {
    forall|b: int| 0 <= b <= s.len() ==> size_ok(c, lim, #[trigger] bin_start(s, b), bin_end(s, n, b))
}

/// Consecutive bins follow the trend.
pub open spec fn bins_follow(c: PrefixCounts, trend: Option<Trend>, s: Seq<usize>, n: int) -> bool {
    forall|b: int|
        0 < b <= s.len() ==> trend_ok(c, trend, bin_start(s, b - 1), bin_end(s, n, b - 1), #[trigger] bin_start(s, b), bin_end(s, n, b))
}

/// The gains of the first `m` bins, each of which ends at a split.
pub open spec fn gain_upto(g: Seq<Vec<i64>>, s: Seq<usize>, m: int) -> int
    decreases m,
{
    if m <= 0 {
        0
    } else {
        gain_upto(g, s, m - 1) + gain(g, bin_start(s, m - 1), s[m - 1] as int)
    }
}

/// The total gain of the bins that `s` makes over prebins `0..n`.
pub open spec fn total_gain(g: Seq<Vec<i64>>, s: Seq<usize>, n: int) -> int {
    gain_upto(g, s, s.len() as int) + gain(g, bin_start(s, s.len() as int), n - 1)
}

/// `s` splits prebins `0..n` into bins that all meet the size limits.
pub open spec fn feasible(c: PrefixCounts, lim: SizeLimits, s: Seq<usize>, n: int) -> bool {
    valid_splits(s, n) && bins_sized(c, lim, s, n)
}

/// The cell `(k, i)` is at least the gain of every feasible partition of
/// prebins `0..=i` into `k` bins.
pub open spec fn dominates(c: PrefixCounts, g: Seq<Vec<i64>>, lim: SizeLimits, dp: Grid, k: int, i: int) -> bool {
    forall|s: Seq<usize>| s.len() == k - 1 && #[trigger] feasible(c, lim, s, i + 1) ==> dp.at(k, i) >= total_gain(g, s, i + 1)
}

/// There are fewer splits than prebins.
pub proof fn lemma_splits_len(s: Seq<usize>, n: int)
    requires
        valid_splits(s, n),
    ensures
        s.len() < n,
{
    if s.len() > 0 {
        lemma_splits_at_least(s, n, s.len() - 1);
    }
}

proof fn lemma_splits_at_least(s: Seq<usize>, n: int, b: int)
    requires
        valid_splits(s, n),
        0 <= b < s.len(),
    ensures
        s[b] >= b,
    decreases b,
{
    if b > 0 {
        lemma_splits_at_least(s, n, b - 1);
    }
}

proof fn lemma_gain_upto_nonneg(g: Seq<Vec<i64>>, s: Seq<usize>, n: int, m: int)
    requires
        gains_wf(g, g.len() as int),
        valid_splits(s, n),
        n <= g.len(),
        0 <= m <= s.len(),
    ensures
        gain_upto(g, s, m) >= 0,
    decreases m,
{
    if m > 0 {
        lemma_gain_upto_nonneg(g, s, n, m - 1);
        assert(0 <= gain(g, bin_start(s, m - 1), s[m - 1] as int));
    }
}

/// The total gain of a partition is not negative.
pub proof fn lemma_total_gain_nonneg(g: Seq<Vec<i64>>, s: Seq<usize>, n: int)
    requires
        gains_wf(g, g.len() as int),
        valid_splits(s, n),
        n <= g.len(),
    ensures
        total_gain(g, s, n) >= 0,
{
    lemma_gain_upto_nonneg(g, s, n, s.len() as int);
    lemma_splits_len(s, n);
    if s.len() > 0 {
        assert(s[s.len() - 1] < n - 1);
    }
    assert(0 <= gain(g, bin_start(s, s.len() as int), n - 1));
}

/// A feasible partition of `0..=i` ends with a feasible bin `j + 1..=i` after
/// a feasible partition of `0..=j`, its last split `j`.
proof fn lemma_feasible_split(c: PrefixCounts, g: Seq<Vec<i64>>, lim: SizeLimits, s: Seq<usize>, i: int)
    requires
        s.len() >= 1,
        feasible(c, lim, s, i + 1),
    ensures
        s == s.drop_last().push(s.last()),
        feasible(c, lim, s.drop_last(), s.last() + 1),
        size_ok(c, lim, s.last() + 1, i),
        0 <= s.last() < i,
        total_gain(g, s, i + 1) == total_gain(g, s.drop_last(), s.last() + 1) + gain(g, s.last() + 1, i),
{
    let s0 = s.drop_last();
    let j = s.last() as int;
    let m = s0.len() as int;
    assert(s == s0.push(j as usize));
    lemma_splits_ascending(s, i + 1);
    assert forall|b: int| 0 <= b <= m implies
        #[trigger] bin_start(s, b) == bin_start(s0, b) && bin_end(s, i + 1, b) == bin_end(s0, j + 1, b) by {
        if b > 0 {
            assert(s[b - 1] == s0[b - 1]);
        }
        if b < m {
            assert(s[b] == s0[b]);
        }
    }
    assert(valid_splits(s0, j + 1)) by {
        assert forall|b: int| 0 <= b < s0.len() implies #[trigger] s0[b] < j + 1 - 1 by {
            assert(s[b] < s[m]);
        }
        assert forall|b: int| 0 < b < s0.len() implies s0[b - 1] < #[trigger] s0[b] by {
            assert(s[b - 1] < s[b]);
        }
    }
    assert(bins_sized(c, lim, s0, j + 1)) by {
        assert forall|b: int| 0 <= b <= s0.len() implies size_ok(c, lim, #[trigger] bin_start(s0, b), bin_end(s0, j + 1, b)) by {
            assert(size_ok(c, lim, bin_start(s, b), bin_end(s, i + 1, b)));
        }
    }
    assert(size_ok(c, lim, bin_start(s, m + 1), bin_end(s, i + 1, m + 1)));
    lemma_gain_upto_push(g, s0, j as usize, m);
}

/// The recurrence of the optimizer, cell `(k, i)` after the candidates
/// `j' < j` for the last split have been tried in increasing order: the best
/// value so far (`-1` while none is feasible) and its split. Row 1 is the
/// single bin `0..=i` when it meets the limits. In row `k >= 2` a candidate
/// `j'` extends a feasible cell `(k - 1, j')` by the bin `j' + 1..=i` when that
/// bin meets the limits and its WoE follows `trend` from the last bin of that
/// cell; it replaces the best so far only when its value is strictly larger.
pub open spec fn dp_scan(c: PrefixCounts, g: Seq<Vec<i64>>, lim: SizeLimits, trend: Option<Trend>, k: int, i: int, j: int) -> (int, int)
    decreases k, j,
{
    if k <= 1 {
        (if size_ok(c, lim, 0, i) { gain(g, 0, i) } else { -1 }, 0)
    } else if j <= k - 2 || j < 1 {
        (-1, 0)
    } else {
        let prev = dp_scan(c, g, lim, trend, k, i, j - 1);
        let jj = j - 1;
        let pc = dp_scan(c, g, lim, trend, k - 1, jj, jj);
        let ls = if k - 1 <= 1 { 0 } else { pc.1 + 1 };
        let cand = pc.0 + gain(g, jj + 1, i);
        if pc.0 >= 0 && size_ok(c, lim, jj + 1, i) && trend_ok(c, trend, ls, jj, jj + 1, i) && cand > prev.0 {
            (cand, jj)
        } else {
            prev
        }
    }
}

/// Cell `(k, i)` of the recurrence: the best value of `k` bins over prebins
/// `0..=i` (`-1` when none is feasible) and the split before the last bin.
pub open spec fn dp_cell(c: PrefixCounts, g: Seq<Vec<i64>>, lim: SizeLimits, trend: Option<Trend>, k: int, i: int) -> (int, int) {
    dp_scan(c, g, lim, trend, k, i, i)
}

/// The splits recorded for cell `(k, i)`, followed back row by row.
pub open spec fn dp_path(c: PrefixCounts, g: Seq<Vec<i64>>, lim: SizeLimits, trend: Option<Trend>, k: int, i: int) -> Seq<usize>
    decreases k,
{
    if k <= 1 {
        seq![]
    } else {
        let b = dp_cell(c, g, lim, trend, k, i).1;
        dp_path(c, g, lim, trend, k - 1, b).push(b as usize)
    }
}

/// The largest `k <= kmax` whose cell at prebin `i` is feasible, 1 where none is.
pub open spec fn dp_pick(c: PrefixCounts, g: Seq<Vec<i64>>, lim: SizeLimits, trend: Option<Trend>, kmax: int, i: int) -> int
    decreases kmax,
{
    if kmax <= 1 {
        1
    } else if dp_cell(c, g, lim, trend, kmax, i).0 >= 0 {
        kmax
    } else {
        dp_pick(c, g, lim, trend, kmax - 1, i)
    }
}

/// What the optimizer returns: with `k = dp_pick(min(max_bins, n), n - 1)`,
/// the value of cell `(k, n - 1)` when it is feasible, and its path.
pub open spec fn optimum(c: PrefixCounts, g: Seq<Vec<i64>>, max_bins: int, lim: SizeLimits, trend: Option<Trend>) -> (Option<i64>, Seq<usize>) {
    let n = c.len();
    let kmax = if max_bins < n { max_bins } else { n };
    let k = dp_pick(c, g, lim, trend, kmax, n - 1);
    let v = dp_cell(c, g, lim, trend, k, n - 1).0;
    (if v >= 0 { Some(v as i64) } else { None }, dp_path(c, g, lim, trend, k, n - 1))
}

/// The split of a cell lies before its last prebin, or is 0.
proof fn lemma_scan_back(c: PrefixCounts, g: Seq<Vec<i64>>, lim: SizeLimits, trend: Option<Trend>, k: int, i: int, j: int)
    requires
        0 <= i,
        j <= i,
    ensures
        0 <= dp_scan(c, g, lim, trend, k, i, j).1,
        dp_scan(c, g, lim, trend, k, i, j).1 == 0 || dp_scan(c, g, lim, trend, k, i, j).1 < i,
    decreases k, j,
{
    if k > 1 && !(j <= k - 2 || j < 1) {
        lemma_scan_back(c, g, lim, trend, k, i, j - 1);
    }
}

/// Cells of rows `1..=kmax` at columns `0..n` match the recurrence.
pub open spec fn grids_match(
    c: PrefixCounts,
    g: Seq<Vec<i64>>,
    lim: SizeLimits,
    trend: Option<Trend>,
    dp: Grid,
    back: Grid,
    k: int,
    i: int,
) -> bool {
    forall|r: int, i2: int|
        1 <= r < dp.rows() && 0 <= i2 < dp.cols() && (r < k || (r == k && i2 < i)) ==> (#[trigger] dp.at(r, i2)) == dp_cell(c, g, lim, trend, r, i2).0
            && back.at(r, i2) == dp_cell(c, g, lim, trend, r, i2).1
}

/// Cells from `(k, i)` on, row by row, still hold their initial values.
pub open spec fn untouched(dp: Grid, back: Grid, k: int, i: int) -> bool {
    forall|r: int, i2: int|
        1 <= r < dp.rows() && 0 <= i2 < dp.cols() && (r > k || (r == k && i2 >= i)) ==> (#[trigger] dp.at(r, i2)) == -1 && back.at(r, i2) == 0
}

/// A finished row hands over to the next one.
proof fn lemma_next_row(c: PrefixCounts, g: Seq<Vec<i64>>, lim: SizeLimits, trend: Option<Trend>, dp: Grid, back: Grid, k: int, i: int)
    requires
        grids_match(c, g, lim, trend, dp, back, k, i),
        untouched(dp, back, k, i),
        i >= dp.cols(),
    ensures
        grids_match(c, g, lim, trend, dp, back, k + 1, 0),
        untouched(dp, back, k + 1, 0),
{
    assert forall|r: int, i2: int|
        1 <= r < dp.rows() && 0 <= i2 < dp.cols() && (r < k + 1 || (r == k + 1 && i2 < 0)) implies (#[trigger] dp.at(r, i2))
        == dp_cell(c, g, lim, trend, r, i2).0 && back.at(r, i2) == dp_cell(c, g, lim, trend, r, i2).1 by {
        assert(r < k || (r == k && i2 < i));
        assert(dp.at(r, i2) == dp_cell(c, g, lim, trend, r, i2).0);
        assert(back.at(r, i2) == dp_cell(c, g, lim, trend, r, i2).1);
    }
    assert forall|r: int, i2: int|
        1 <= r < dp.rows() && 0 <= i2 < dp.cols() && (r > k + 1 || (r == k + 1 && i2 >= 0)) implies (#[trigger] dp.at(r, i2)) == -1
        && back.at(r, i2) == 0 by {
        assert(r > k);
        assert(dp.at(r, i2) == -1);
        assert(back.at(r, i2) == 0);
    }
}

/// At the start of row `k >= 2`, its cells before `k - 1` already match: the
/// recurrence leaves them infeasible with split 0.
proof fn lemma_row_start(c: PrefixCounts, g: Seq<Vec<i64>>, lim: SizeLimits, trend: Option<Trend>, dp: Grid, back: Grid, k: int)
    requires
        k >= 2,
        grids_match(c, g, lim, trend, dp, back, k, 0),
        untouched(dp, back, k, 0),
    ensures
        grids_match(c, g, lim, trend, dp, back, k, k - 1),
        untouched(dp, back, k, k - 1),
{
    assert forall|r: int, i2: int|
        1 <= r < dp.rows() && 0 <= i2 < dp.cols() && (r < k || (r == k && i2 < k - 1)) implies (#[trigger] dp.at(r, i2))
        == dp_cell(c, g, lim, trend, r, i2).0 && back.at(r, i2) == dp_cell(c, g, lim, trend, r, i2).1 by {
        if r == k {
            assert(1 <= r < dp.rows() && 0 <= i2 < dp.cols());
            assert(r > k || (r == k && i2 >= 0));
            assert(dp.at(r, i2) == -1);
            assert(back.at(r, i2) == 0);
        }
    }
}

/// Setting cell `(k, i)` keeps the other cells' facts.
proof fn lemma_set_frame(
    c: PrefixCounts,
    g: Seq<Vec<i64>>,
    lim: SizeLimits,
    trend: Option<Trend>,
    dp0: Grid,
    back0: Grid,
    dp: Grid,
    back: Grid,
    k: int,
    i: int,
    v: i64,
    w: i64,
)
    requires
        grid_shape(dp) == grid_shape(dp0),
        grid_shape(back) == grid_shape(back0),
        grid_cells(dp) == grid_cells(dp0).insert((k, i), v),
        grid_cells(back) == grid_cells(back0).insert((k, i), w),
        grids_match(c, g, lim, trend, dp0, back0, k, i),
        untouched(dp0, back0, k, i + 1),
    ensures
        grids_match(c, g, lim, trend, dp, back, k, i),
        untouched(dp, back, k, i + 1),
{
    assert forall|r: int, i2: int|
        1 <= r < dp.rows() && 0 <= i2 < dp.cols() && (r < k || (r == k && i2 < i)) implies (#[trigger] dp.at(r, i2))
        == dp_cell(c, g, lim, trend, r, i2).0 && back.at(r, i2) == dp_cell(c, g, lim, trend, r, i2).1 by {
        assert(dp0.at(r, i2) == dp_cell(c, g, lim, trend, r, i2).0);
        assert(back0.at(r, i2) == dp_cell(c, g, lim, trend, r, i2).1);
        assert(dp.at(r, i2) == dp0.at(r, i2));
        assert(back.at(r, i2) == back0.at(r, i2));
    }
    assert forall|r: int, i2: int|
        1 <= r < dp.rows() && 0 <= i2 < dp.cols() && (r > k || (r == k && i2 >= i + 1)) implies (#[trigger] dp.at(r, i2)) == -1
        && back.at(r, i2) == 0 by {
        assert(dp0.at(r, i2) == -1);
        assert(back0.at(r, i2) == 0);
        assert(dp.at(r, i2) == dp0.at(r, i2));
        assert(back.at(r, i2) == back0.at(r, i2));
    }
}

proof fn lemma_path_matches(
    c: PrefixCounts,
    g: Seq<Vec<i64>>,
    lim: SizeLimits,
    trend: Option<Trend>,
    dp: Grid,
    back: Grid,
    k: int,
    i: int,
)
    requires
        grids_match(c, g, lim, trend, dp, back, dp.rows() as int, 0),
        1 <= k < dp.rows(),
        0 <= i < dp.cols(),
        dp.cols() <= PREBIN_MAX,
    ensures
        path(back, k, i) == dp_path(c, g, lim, trend, k, i),
    decreases k,
{
    if k > 1 {
        assert(dp.at(k, i) == dp_cell(c, g, lim, trend, k, i).0);
        let b = dp_cell(c, g, lim, trend, k, i).1;
        lemma_scan_back(c, g, lim, trend, k, i, i);
        lemma_path_matches(c, g, lim, trend, dp, back, k - 1, b);
    }
}

/// First prebin of the last bin of the partition recorded at `(k, i)`.
pub open spec fn last_start(back: Grid, k: int, i: int) -> int {
    if k <= 1 {
        0
    } else {
        back.at(k, i) + 1
    }
}

/// What a reachable cell of the tables records: the best partition of
/// prebins `0..=i` into `k` bins ends with bin `back + 1..=i`, which meets the
/// limits and extends a reachable cell of row `k - 1`.
pub open spec fn cell_ok(
    c: PrefixCounts,
    g: Seq<Vec<i64>>,
    lim: SizeLimits,
    trend: Option<Trend>,
    dp: Grid,
    back: Grid,
    k: int,
    i: int,
) -> bool {
    dp.at(k, i) >= 0 ==> {
        &&& dp.at(k, i) <= k * GAIN_MAX
        &&& if k == 1 {
            size_ok(c, lim, 0, i) && dp.at(1, i) == gain(g, 0, i)
        } else {
            let j = back.at(k, i) as int;
            &&& k - 2 <= j < i
            &&& dp.at(k - 1, j) >= 0
            &&& size_ok(c, lim, j + 1, i)
            &&& trend_ok(c, trend, last_start(back, k - 1, j), j, j + 1, i)
            &&& dp.at(k, i) == dp.at(k - 1, j) + gain(g, j + 1, i)
        }
    }
}

pub open spec fn all_ok(
    c: PrefixCounts,
    g: Seq<Vec<i64>>,
    lim: SizeLimits,
    trend: Option<Trend>,
    dp: Grid,
    back: Grid,
) -> bool {
    forall|k: int, i: int| 1 <= k < dp.rows() && 0 <= i < dp.cols() ==> #[trigger] cell_ok(c, g, lim, trend, dp, back, k, i)
}

/// No cell of rows `k..` is reachable yet.
pub open spec fn rows_clear(dp: Grid, k: int) -> bool {
    forall|r: int, i: int| k <= r < dp.rows() && 0 <= i < dp.cols() ==> #[trigger] dp.at(r, i) < 0
}

/// The split indices recorded for `(k, i)`.
pub open spec fn path(back: Grid, k: int, i: int) -> Seq<usize>
    decreases k,
{
    if k <= 1 {
        seq![]
    } else {
        path(back, k - 1, back.at(k, i) as int).push(back.at(k, i) as usize)
    }
}

proof fn lemma_gain_upto_push(g: Seq<Vec<i64>>, s: Seq<usize>, x: usize, m: int)
    requires
        0 <= m <= s.len(),
    ensures
        gain_upto(g, s.push(x), m) == gain_upto(g, s, m),
    decreases m,
{
    if m > 0 {
        lemma_gain_upto_push(g, s, x, m - 1);
        assert(s.push(x)[m - 1] == s[m - 1]);
        assert(bin_start(s.push(x), m - 1) == bin_start(s, m - 1));
    }
}

/// A reachable cell's path is a valid partition of `0..=i` into `k` bins that
/// meet the limits, with the cell's value as total gain.
proof fn lemma_path(
    c: PrefixCounts,
    g: Seq<Vec<i64>>,
    lim: SizeLimits,
    trend: Option<Trend>,
    dp: Grid,
    back: Grid,
    k: int,
    i: int,
)
    requires
        all_ok(c, g, lim, trend, dp, back),
        1 <= k < dp.rows(),
        0 <= i < dp.cols(),
        dp.cols() <= PREBIN_MAX,
        dp.at(k, i) >= 0,
    ensures
        path(back, k, i).len() == k - 1,
        valid_splits(path(back, k, i), i + 1),
        bins_sized(c, lim, path(back, k, i), i + 1),
        bins_follow(c, trend, path(back, k, i), i + 1),
        total_gain(g, path(back, k, i), i + 1) == dp.at(k, i),
        bin_start(path(back, k, i), k - 1) == last_start(back, k, i),
    decreases k,
{
    assert(cell_ok(c, g, lim, trend, dp, back, k, i));
    let s = path(back, k, i);
    if k == 1 {
        assert(bins_sized(c, lim, s, i + 1)) by {
            assert forall|b: int| 0 <= b <= s.len() implies size_ok(c, lim, #[trigger] bin_start(s, b), bin_end(s, i + 1, b)) by {
                assert(b == 0);
            }
        }
    } else {
        let j = back.at(k, i) as int;
        lemma_path(c, g, lim, trend, dp, back, k - 1, j);
        let s0 = path(back, k - 1, j);
        assert(s == s0.push(j as usize));
        let m = s0.len() as int;
        assert(s[m] == j as usize);
        assert forall|b: int| 0 <= b <= m implies
            #[trigger] bin_start(s, b) == bin_start(s0, b) && bin_end(s, i + 1, b) == bin_end(s0, j + 1, b) by {
            if b > 0 {
                assert(s[b - 1] == s0[b - 1]);
            }
            if b < m {
                assert(s[b] == s0[b]);
            }
        }
        assert(valid_splits(s, i + 1)) by {
            assert forall|b: int| 0 <= b < s.len() implies #[trigger] s[b] < i + 1 - 1 by {
                if b < m {
                    assert(s[b] == s0[b]);
                }
            }
            assert forall|b: int| 0 < b < s.len() implies s[b - 1] < #[trigger] s[b] by {
                assert(s[b - 1] == s0[b - 1]);
                assert(s0[b - 1] < j);
                if b < m {
                    assert(s[b] == s0[b]);
                }
            }
        }
        assert(bins_sized(c, lim, s, i + 1)) by {
            assert forall|b: int| 0 <= b <= s.len() implies size_ok(c, lim, #[trigger] bin_start(s, b), bin_end(s, i + 1, b)) by {
                if b <= m {
                    assert(bin_start(s0, b) == bin_start(s, b));
                }
            }
        }
        assert(bins_follow(c, trend, s, i + 1)) by {
            assert forall|b: int| 0 < b <= s.len() implies trend_ok(c, trend, bin_start(s, b - 1), bin_end(s, i + 1, b - 1), #[trigger] bin_start(s, b), bin_end(s, i + 1, b)) by {
                assert(bin_start(s0, b - 1) == bin_start(s, b - 1));
                if b <= m {
                    assert(bin_start(s0, b) == bin_start(s, b));
                }
            }
        }
        lemma_gain_upto_push(g, s0, j as usize, m);
        assert(bin_start(s, m) == bin_start(s0, m));
    }
}

/// Chooses split indices over the prebins of `c`.
///
/// `k_max = min(max_bins, n)`. Row `k` of the tables holds, for each last
/// prebin `i`, the best total gain of `k` bins over `0..=i` whose sizes lie in
/// `lim` and whose WoE follows `trend` from the bin before. The result is the
/// partition of the largest `k` that reaches the last prebin, with its total
/// gain and `true`; where no `k` does, a single bin covers everything, with
/// its gain as total and `false`. Without a trend the result is optimal: no
/// partition into at most `max_bins` bins that meet the limits has more bins,
/// or as many bins and a larger total gain. With a trend, each bin's WoE is checked only against
/// the best partition recorded for the bins before it, so the result meets
/// the limits and the trend but may not be the best such partition.
#[verifier::spinoff_prover]
#[verifier::rlimit(100)]
pub fn optimize(
    c: &PrefixCounts,
    gains: &Vec<Vec<i64>>,
    max_bins: usize,
    lim: SizeLimits,
    trend: Option<Trend>,
) -> (r: (bool, i64, Vec<usize>))
    requires
        c.wf(),
        1 <= c.len() <= PREBIN_MAX,
        gains_wf(gains@, c.len()),
        max_bins >= 1,
    ensures
        valid_splits(r.2@, c.len()),
        r.2@.len() < max_bins,
        r.2@.len() < c.len(),
        r.1 == total_gain(gains@, r.2@, c.len()),
        r.0 ==> bins_sized(*c, lim, r.2@, c.len()) && bins_follow(*c, trend, r.2@, c.len()),
        !r.0 ==> r.2@.len() == 0,
        r.0 == (optimum(*c, gains@, max_bins as int, lim, trend).0 is Some),
        r.2@ == optimum(*c, gains@, max_bins as int, lim, trend).1,
        size_ok(*c, lim, 0, c.len() - 1) ==> r.0,
        trend is None ==> forall|s: Seq<usize>|
            #[trigger] feasible(*c, lim, s, c.len()) && s.len() < max_bins ==> r.0 && (s.len() < r.2@.len() || (
            s.len() == r.2@.len() && r.1 >= total_gain(gains@, s, c.len()))),
{
    let n = c.cum_pos.len();
    let k_max = if max_bins < n { max_bins } else { n };
    assert((k_max + 1) * n <= 0x00ff_ffff_ffff_ffff) by (nonlinear_arith)
        requires
            k_max <= n,
            n <= PREBIN_MAX,
    ;
    let mut dp = Grid::filled(k_max + 1, n, -1);
    let mut back = Grid::filled(k_max + 1, n, 0);
    let ghost g = gains@;

    let mut i: usize = 0;
    while i < n
        invariant
            c.wf(),
            n == c.len(),
            1 <= n <= PREBIN_MAX,
            1 <= k_max <= n,
            g == gains@,
            gains_wf(g, n as int),
            dp.rows() == k_max + 1,
            dp.cols() == n,
            back.rows() == k_max + 1,
            back.cols() == n,
            i <= n,
            all_ok(*c, g, lim, trend, dp, back),
            rows_clear(dp, 2),
            forall|i2: int| 0 <= i2 < i ==> #[trigger] dominates(*c, g, lim, dp, 1, i2),
            grids_match(*c, g, lim, trend, dp, back, 1, i as int),
            untouched(dp, back, 1, i as int),
        decreases n - i,
    {
        let ghost dp0 = dp;
        let (p, q) = c.get_counts(0, i);
        if lim.min_count <= p + q && p + q <= lim.max_count {
            let ghost old_dp = dp;
            proof {
                assert(0 <= gain(g, 0, i as int) <= GAIN_MAX);
            }
            dp.set(1, i, gains[0][i]);
            proof {
                assert forall|r: int, i2: int| 2 <= r < dp.rows() && 0 <= i2 < dp.cols() implies #[trigger] dp.at(r, i2) < 0 by {
                    assert(old_dp.at(r, i2) < 0);
                }
                assert forall|k: int, i2: int| 1 <= k < dp.rows() && 0 <= i2 < dp.cols() implies #[trigger] cell_ok(*c, g, lim, trend, dp, back, k, i2) by {
                    assert(cell_ok(*c, g, lim, trend, old_dp, back, k, i2));
                    if k >= 2 {
                        assert(old_dp.at(k, i2) < 0);
                    }
                }
            }
        }
        proof {
            assert forall|r: int, i2: int|
                1 <= r < dp.rows() && 0 <= i2 < dp.cols() && (r < 1 || (r == 1 && i2 < i + 1)) implies (#[trigger] dp.at(r, i2))
                == dp_cell(*c, g, lim, trend, r, i2).0 && back.at(r, i2) == dp_cell(*c, g, lim, trend, r, i2).1 by {
                if i2 < i {
                    assert(dp0.at(r, i2) == dp_cell(*c, g, lim, trend, r, i2).0);
                } else {
                    assert(dp0.at(1, i2) == -1 && back.at(1, i2) == 0);
                }
            }
            assert forall|r: int, i2: int|
                1 <= r < dp.rows() && 0 <= i2 < dp.cols() && (r > 1 || (r == 1 && i2 >= i + 1)) implies (#[trigger] dp.at(r, i2)) == -1
                && back.at(r, i2) == 0 by {
                assert(dp0.at(r, i2) == -1);
            }
            assert forall|i2: int| 0 <= i2 < i + 1 implies #[trigger] dominates(*c, g, lim, dp, 1, i2) by {
                if i2 < i {
                    assert(dominates(*c, g, lim, dp0, 1, i2));
                    assert(dp.at(1, i2) == dp0.at(1, i2));
                } else {
                    assert forall|s: Seq<usize>| s.len() == 0 && #[trigger] feasible(*c, lim, s, i2 + 1) implies dp.at(1, i2) >= total_gain(g, s, i2 + 1) by {
                        assert(size_ok(*c, lim, bin_start(s, 0), bin_end(s, i2 + 1, 0)));
                    }
                }
            }
        }
        i = i + 1;
    }

    proof {
        lemma_next_row(*c, g, lim, trend, dp, back, 1, i as int);
    }
    let mut k: usize = 2;
    while k <= k_max
        invariant
            c.wf(),
            n == c.len(),
            1 <= n <= PREBIN_MAX,
            1 <= k_max <= n,
            g == gains@,
            gains_wf(g, n as int),
            dp.rows() == k_max + 1,
            dp.cols() == n,
            back.rows() == k_max + 1,
            back.cols() == n,
            2 <= k <= k_max + 1,
            all_ok(*c, g, lim, trend, dp, back),
            rows_clear(dp, k as int),
            trend is None ==> forall|k2: int, i2: int| 1 <= k2 < k && 0 <= i2 < n ==> #[trigger] dominates(*c, g, lim, dp, k2, i2),
            forall|i2: int| 0 <= i2 < n ==> #[trigger] dominates(*c, g, lim, dp, 1, i2),
            grids_match(*c, g, lim, trend, dp, back, k as int, 0),
            untouched(dp, back, k as int, 0),
        decreases k_max + 1 - k,
    {
        let mut i: usize = k - 1;
        proof {
            lemma_row_start(*c, g, lim, trend, dp, back, k as int);
            assert forall|i2: int| 0 <= i2 < k - 1 implies #[trigger] dominates(*c, g, lim, dp, k as int, i2) by {
                assert forall|s: Seq<usize>| s.len() == k - 1 && #[trigger] feasible(*c, lim, s, i2 + 1) implies dp.at(k as int, i2) >= total_gain(g, s, i2 + 1) by {
                    lemma_splits_len(s, i2 + 1);
                }
            }
        }
        while i < n
            invariant
                c.wf(),
                n == c.len(),
                1 <= n <= PREBIN_MAX,
                1 <= k_max <= n,
                g == gains@,
                gains_wf(g, n as int),
                dp.rows() == k_max + 1,
                dp.cols() == n,
                back.rows() == k_max + 1,
                back.cols() == n,
                2 <= k <= k_max,
                k - 1 <= i <= n,
                all_ok(*c, g, lim, trend, dp, back),
                rows_clear(dp, k + 1),
                trend is None ==> forall|k2: int, i2: int| 1 <= k2 < k && 0 <= i2 < n ==> #[trigger] dominates(*c, g, lim, dp, k2, i2),
                trend is None ==> forall|i2: int| 0 <= i2 < i ==> #[trigger] dominates(*c, g, lim, dp, k as int, i2),
                forall|i2: int| 0 <= i2 < n ==> #[trigger] dominates(*c, g, lim, dp, 1, i2),
                grids_match(*c, g, lim, trend, dp, back, k as int, i as int),
                untouched(dp, back, k as int, i as int),
            decreases n - i,
        {
            let mut j: usize = k - 2;
            proof {
                assert(dp.at(k as int, i as int) == -1 && back.at(k as int, i as int) == 0);
                assert forall|r: int, i2: int|
                    1 <= r < dp.rows() && 0 <= i2 < dp.cols() && (r > k || (r == k && i2 >= i + 1)) implies (#[trigger] dp.at(r, i2)) == -1
                    && back.at(r, i2) == 0 by {}
                assert forall|s: Seq<usize>| s.len() == k - 1 && #[trigger] feasible(*c, lim, s, i + 1) && s.last() < j implies dp.at(k as int, i as int) >= total_gain(g, s, i + 1) by {
                    lemma_splits_at_least(s, i + 1, s.len() - 1);
                }
            }
            while j < i
                invariant
                    c.wf(),
                    n == c.len(),
                    1 <= n <= PREBIN_MAX,
                    1 <= k_max <= n,
                    g == gains@,
                    gains_wf(g, n as int),
                    dp.rows() == k_max + 1,
                    dp.cols() == n,
                    back.rows() == k_max + 1,
                    back.cols() == n,
                    2 <= k <= k_max,
                    k - 1 <= i < n,
                    k - 2 <= j <= i,
                    all_ok(*c, g, lim, trend, dp, back),
                    rows_clear(dp, k + 1),
                    trend is None ==> forall|k2: int, i2: int| 1 <= k2 < k && 0 <= i2 < n ==> #[trigger] dominates(*c, g, lim, dp, k2, i2),
                    trend is None ==> forall|i2: int| 0 <= i2 < i ==> #[trigger] dominates(*c, g, lim, dp, k as int, i2),
                    forall|i2: int| 0 <= i2 < n ==> #[trigger] dominates(*c, g, lim, dp, 1, i2),
                    grids_match(*c, g, lim, trend, dp, back, k as int, i as int),
                    untouched(dp, back, k as int, i + 1),
                    dp.at(k as int, i as int) == dp_scan(*c, g, lim, trend, k as int, i as int, j as int).0,
                    back.at(k as int, i as int) == dp_scan(*c, g, lim, trend, k as int, i as int, j as int).1,
                    trend is None ==> forall|s: Seq<usize>|
                        s.len() == k - 1 && #[trigger] feasible(*c, lim, s, i + 1) && s.last() < j ==> dp.at(k as int, i as int) >= total_gain(g, s, i + 1),
                decreases i - j,
            {
                let ghost before = dp.at(k as int, i as int);
                let prev = dp.get(k - 1, j);
                if prev >= 0 {
                    proof {
                        assert(cell_ok(*c, g, lim, trend, dp, back, (k - 1) as int, j as int));
                    }
                    let (p, q) = c.get_counts(j + 1, i);
                    if lim.min_count <= p + q && p + q <= lim.max_count {
                        let follows = match trend {
                            None => true,
                            Some(t) => {
                                let ls: usize = if k - 1 == 1 {
                                    0
                                } else {
                                    (back.get(k - 1, j) + 1) as usize
                                };
                                let (pp, pq) = c.get_counts(ls, j);
                                match t {
                                    Trend::Increasing => woe_at_most(pp, pq, p, q),
                                    Trend::Decreasing => woe_at_most(p, q, pp, pq),
                                }
                            },
                        };
                        if follows {
                            proof {
                                assert(0 <= gain(g, j + 1, i as int) <= GAIN_MAX);
                            }
                            let cand = prev + gains[j + 1][i];
                            if cand > dp.get(k, i) {
                                let ghost old_dp = dp;
                                let ghost old_back = back;
                                dp.set(k, i, cand);
                                back.set(k, i, j as i64);
                                proof {
                                    assert forall|r: int, i2: int| k + 1 <= r < dp.rows() && 0 <= i2 < dp.cols() implies #[trigger] dp.at(r, i2) < 0 by {
                                        assert(old_dp.at(r, i2) < 0);
                                    }
                                    assert forall|k2: int, i2: int| 1 <= k2 < dp.rows() && 0 <= i2 < dp.cols() implies #[trigger] cell_ok(*c, g, lim, trend, dp, back, k2, i2) by {
                                        assert(cell_ok(*c, g, lim, trend, old_dp, old_back, k2, i2));
                                        if k2 > k {
                                            assert(old_dp.at(k2, i2) < 0);
                                        } else if k2 == k && i2 == i {
                                        } else {
                                            if k2 >= 2 && old_dp.at(k2, i2) >= 0 {
                                                let j2 = old_back.at(k2, i2) as int;
                                                assert(back.at(k2, i2) == old_back.at(k2, i2));
                                                assert(dp.at(k2 - 1, j2) == old_dp.at(k2 - 1, j2));
                                                assert(last_start(back, k2 - 1, j2) == last_start(old_back, k2 - 1, j2));
                                            }
                                        }
                                    }
                                    lemma_set_frame(*c, g, lim, trend, old_dp, old_back, dp, back, k as int, i as int, cand, j as i64);
                                    assert forall|i2: int| 0 <= i2 < n implies #[trigger] dominates(*c, g, lim, dp, 1, i2) by {
                                        assert(dominates(*c, g, lim, old_dp, 1, i2));
                                        assert(dp.at(1, i2) == old_dp.at(1, i2));
                                    }
                                    if trend is None {
                                        assert forall|k2: int, i2: int| 1 <= k2 < k && 0 <= i2 < n implies #[trigger] dominates(*c, g, lim, dp, k2, i2) by {
                                            assert(dominates(*c, g, lim, old_dp, k2, i2));
                                            assert(dp.at(k2, i2) == old_dp.at(k2, i2));
                                        }
                                        assert forall|i2: int| 0 <= i2 < i implies #[trigger] dominates(*c, g, lim, dp, k as int, i2) by {
                                            assert(dominates(*c, g, lim, old_dp, k as int, i2));
                                            assert(dp.at(k as int, i2) == old_dp.at(k as int, i2));
                                        }
                                    }
                                }
                            }
                        }
                    }
                }
                proof {
                    assert(dp.at(k - 1, j as int) == dp_cell(*c, g, lim, trend, k - 1, j as int).0);
                    assert(dp_scan(*c, g, lim, trend, k as int, i as int, j + 1) == ({
                        let prev = dp_scan(*c, g, lim, trend, k as int, i as int, j as int);
                        let pc = dp_scan(*c, g, lim, trend, k - 1, j as int, j as int);
                        let ls = if k - 1 <= 1 { 0 } else { pc.1 + 1 };
                        let cand = pc.0 + gain(g, j + 1, i as int);
                        if pc.0 >= 0 && size_ok(*c, lim, j + 1, i as int) && trend_ok(*c, trend, ls, j as int, j + 1, i as int) && cand > prev.0 {
                            (cand, j as int)
                        } else {
                            prev
                        }
                    }));
                    if trend is None {
                        assert forall|s: Seq<usize>| s.len() == k - 1 && #[trigger] feasible(*c, lim, s, i + 1) && s.last() < j + 1 implies dp.at(k as int, i as int) >= total_gain(g, s, i + 1) by {
                            if s.last() == j {
                                lemma_feasible_split(*c, g, lim, s, i as int);
                                let s0 = s.drop_last();
                                assert(dominates(*c, g, lim, dp, k - 1, j as int));
                                assert(feasible(*c, lim, s0, j + 1));
                                lemma_total_gain_nonneg(g, s0, j + 1);
                            }
                        }
                    }
                }
                j = j + 1;
            }
            proof {
                assert forall|r: int, i2: int|
                    1 <= r < dp.rows() && 0 <= i2 < dp.cols() && (r < k || (r == k && i2 < i + 1)) implies (#[trigger] dp.at(r, i2))
                    == dp_cell(*c, g, lim, trend, r, i2).0 && back.at(r, i2) == dp_cell(*c, g, lim, trend, r, i2).1 by {}
                if trend is None {
                    assert forall|s: Seq<usize>| s.len() == k - 1 && #[trigger] feasible(*c, lim, s, i + 1) implies dp.at(k as int, i as int) >= total_gain(g, s, i + 1) by {
                        assert(s[s.len() - 1] < i + 1 - 1);
                    }
                    assert(dominates(*c, g, lim, dp, k as int, i as int));
                }
            }
            i = i + 1;
        }
        proof {
            lemma_next_row(*c, g, lim, trend, dp, back, k as int, i as int);
        }
        k = k + 1;
    }

    let mut fk: usize = k_max;
    while fk > 1 && dp.get(fk, n - 1) < 0
        invariant
            1 <= fk <= k_max,
            dp.rows() == k_max + 1,
            dp.cols() == n,
            1 <= n,
            forall|k2: int| fk < k2 <= k_max ==> #[trigger] dp.at(k2, n - 1) < 0,
            grids_match(*c, g, lim, trend, dp, back, k_max + 1, 0),
            dp_pick(*c, g, lim, trend, k_max as int, n - 1) == dp_pick(*c, g, lim, trend, fk as int, n - 1),
        decreases fk,
    {
        fk = fk - 1;
    }
    let best = dp.get(fk, n - 1);
    proof {
        assert(dp.at(fk as int, n - 1) == dp_cell(*c, g, lim, trend, fk as int, n - 1).0);
        assert(dp_pick(*c, g, lim, trend, fk as int, n - 1) == fk);
        lemma_path_matches(*c, g, lim, trend, dp, back, fk as int, n - 1);
        assert(dp_path(*c, g, lim, trend, 1, n - 1) =~= Seq::<usize>::empty());
    }
    proof {
        if size_ok(*c, lim, 0, n - 1) {
            let e = Seq::<usize>::empty();
            assert(bin_start(e, 0) == 0 && bin_end(e, n as int, 0) == n - 1);
            assert(feasible(*c, lim, e, (n - 1) + 1));
            assert(dominates(*c, g, lim, dp, 1, n - 1));
            lemma_total_gain_nonneg(g, e, n as int);
            if fk > 1 {
                assert(dp.at(fk as int, n - 1) >= 0);
            }
        }
        if trend is None {
            assert forall|s: Seq<usize>| #[trigger] feasible(*c, lim, s, n as int) && s.len() < max_bins implies
                best >= 0 && s.len() + 1 <= fk && (s.len() + 1 == fk ==> best >= total_gain(g, s, n as int)) by {
                lemma_splits_len(s, n as int);
                let k2 = s.len() + 1int;
                assert(k2 <= k_max);
                assert(dominates(*c, g, lim, dp, k2, n - 1));
                assert(feasible(*c, lim, s, (n - 1) + 1));
                lemma_total_gain_nonneg(g, s, n as int);
                assert(dp.at(k2, n - 1) >= 0);
            }
        }
    }
    let mut splits: Vec<usize> = Vec::new();
    if best < 0 {
        proof {
            let e = Seq::<usize>::empty();
            assert(splits@ =~= e);
            assert(bin_start(e, 0) == 0);
            assert(0 <= gain(g, 0, n - 1) <= GAIN_MAX);
        }
        return (false, gains[0][n - 1], splits);
    }
    proof {
        lemma_path(*c, g, lim, trend, dp, back, fk as int, n - 1);
    }
    let ghost full = path(back, fk as int, n - 1);
    let mut t: usize = 0;
    while t + 1 < fk
        invariant
            splits@.len() == t,
            t + 1 <= fk,
            full.len() == fk - 1,
            forall|a: int| 0 <= a < t ==> #[trigger] splits@[a] == 0usize,
        decreases fk - t,
    {
        splits.push(0);
        t = t + 1;
    }
    let mut kp: usize = fk;
    let mut ci: usize = n - 1;
    while kp > 1
        invariant
            all_ok(*c, g, lim, trend, dp, back),
            dp.rows() == k_max + 1,
            dp.cols() == n,
            back.rows() == k_max + 1,
            back.cols() == n,
            1 <= kp <= fk <= k_max,
            ci < n,
            dp.at(kp as int, ci as int) >= 0,
            full == path(back, fk as int, n - 1),
            full.len() == fk - 1,
            splits@.len() == fk - 1,
            path(back, kp as int, ci as int) == full.subrange(0, kp - 1),
            forall|a: int| kp - 1 <= a < fk - 1 ==> #[trigger] splits@[a] == full[a],
        decreases kp,
    {
        proof {
            assert(cell_ok(*c, g, lim, trend, dp, back, kp as int, ci as int));
        }
        let j = back.get(kp, ci) as usize;
        proof {
            let pk = path(back, kp as int, ci as int);
            assert(pk == path(back, kp - 1, j as int).push(j));
            assert(pk[kp - 2] == full[kp - 2]);
            assert(path(back, kp - 1, j as int) =~= full.subrange(0, kp - 2));
        }
        splits.set(kp - 2, j);
        kp = kp - 1;
        ci = j;
    }
    proof {
        assert(splits@ =~= full);
    }
    (true, best, splits)
}

} // verus!
