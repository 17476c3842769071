//! Cumulative positive and negative counts over an ordered run of prebins,
//! and the order of Weight of Evidence between two count pairs.
use vstd::prelude::*;

verus! {

/// The largest total count the library handles; products of two smoothed
/// counts then fit in `u128`.
pub const COUNT_MAX: u64 = 0x4000_0000_0000_0000;

/// Sum of the first `k` entries of `s`.
pub open spec fn prefix_sum(s: Seq<u64>, k: int) -> int
    decreases k,
{
    if k <= 0 || s.len() == 0 {
        0
    } else {
        prefix_sum(s, k - 1) + s[k - 1] as int
    }
}

pub proof fn lemma_prefix_sum_mono(s: Seq<u64>, a: int, b: int)
    requires
        0 <= a <= b <= s.len(),
    ensures
        prefix_sum(s, a) <= prefix_sum(s, b),
    decreases b - a,
{
    if a < b {
        lemma_prefix_sum_mono(s, a, b - 1);
    }
}

pub proof fn lemma_prefix_sum_push(s: Seq<u64>, x: u64, k: int)
    requires
        0 <= k <= s.len(),
    ensures
        prefix_sum(s.push(x), k) == prefix_sum(s, k),
        prefix_sum(s.push(x), s.len() + 1int) == prefix_sum(s, s.len() as int) + x,
    decreases k,
{
    if k > 0 {
        lemma_prefix_sum_push(s, x, k - 1);
        assert(s.push(x)[k - 1] == s[k - 1]);
    }
    lemma_prefix_sum_push_last(s, x);
}

proof fn lemma_prefix_sum_push_last(s: Seq<u64>, x: u64)
    ensures
        prefix_sum(s.push(x), s.len() + 1int) == prefix_sum(s, s.len() as int) + x,
{
    lemma_prefix_sum_same(s.push(x), s, s.len() as int);
    assert(s.push(x)[s.len() as int] == x);
}

proof fn lemma_prefix_sum_same(s: Seq<u64>, t: Seq<u64>, k: int)
    requires
        0 <= k <= t.len(),
        k <= s.len(),
        forall|i: int| 0 <= i < k ==> s[i] == t[i],
    ensures
        prefix_sum(s, k) == prefix_sum(t, k),
    decreases k,
{
    if k > 0 {
        lemma_prefix_sum_same(s, t, k - 1);
    }
}

/// Smoothed share numerator of a count, doubled: an empty cell counts as one half.
pub open spec fn smooth(c: int) -> int {
    if c == 0 {
        1
    } else {
        2 * c
    }
}

/// The Weight of Evidence of `(p1, n1)` is at most that of `(p2, n2)`, both
/// against the same grand totals. With shares `p / P` and `n / N` (an empty
/// cell taking one half), WoE is `ln(smooth(p) N / (smooth(n) P))`, so the
/// order is that of `smooth(p) / smooth(n)`.
pub open spec fn woe_le(p1: int, n1: int, p2: int, n2: int) -> bool {
    smooth(p1) * smooth(n2) <= smooth(p2) * smooth(n1)
}

/// Decides `woe_le` on machine counts.
pub fn woe_at_most(p1: u64, n1: u64, p2: u64, n2: u64) -> (r: bool)
    requires
        p1 < COUNT_MAX,
        n1 < COUNT_MAX,
        p2 < COUNT_MAX,
        n2 < COUNT_MAX,
    ensures
        r == woe_le(p1 as int, n1 as int, p2 as int, n2 as int),
{
    let sp1: u128 = if p1 == 0 { 1 } else { 2 * p1 as u128 };
    let sn1: u128 = if n1 == 0 { 1 } else { 2 * n1 as u128 };
    let sp2: u128 = if p2 == 0 { 1 } else { 2 * p2 as u128 };
    let sn2: u128 = if n2 == 0 { 1 } else { 2 * n2 as u128 };
    assert(sp1 * sn2 < 0x1_0000_0000_0000_0000_0000_0000_0000_0000) by (nonlinear_arith)
        requires
            sp1 <= 0x8000_0000_0000_0000,
            sn2 <= 0x8000_0000_0000_0000,
    ;
    assert(sp2 * sn1 < 0x1_0000_0000_0000_0000_0000_0000_0000_0000) by (nonlinear_arith)
        requires
            sp2 <= 0x8000_0000_0000_0000,
            sn1 <= 0x8000_0000_0000_0000,
    ;
    sp1 * sn2 <= sp2 * sn1
}

/// Cumulative counts over prebins `0..n`: `cum_pos[k]` is the number of
/// positives in prebins `0..=k`, and likewise for negatives.
pub struct PrefixCounts {
    pub cum_pos: Vec<u64>,
    pub cum_neg: Vec<u64>,
    pub total_pos: u64,
    pub total_neg: u64,
}

impl PrefixCounts {
    pub open spec fn len(&self) -> int {
        self.cum_pos@.len() as int
    }

    /// Positives in prebins `0..=k`, zero for `k < 0`.
    pub open spec fn cpos(&self, k: int) -> int {
        if k < 0 {
            0
        } else {
            self.cum_pos@[k] as int
        }
    }

    pub open spec fn cneg(&self, k: int) -> int {
        if k < 0 {
            0
        } else {
            self.cum_neg@[k] as int
        }
    }

    /// Positives in prebins `i..=j`.
    pub open spec fn pos_in(&self, i: int, j: int) -> int {
        self.cpos(j) - self.cpos(i - 1)
    }

    /// Negatives in prebins `i..=j`.
    pub open spec fn neg_in(&self, i: int, j: int) -> int {
        self.cneg(j) - self.cneg(i - 1)
    }

    pub open spec fn count_in(&self, i: int, j: int) -> int {
        self.pos_in(i, j) + self.neg_in(i, j)
    }

    /// The counts never decrease along the prebins, the totals are the last
    /// cumulative values, and they stay below `COUNT_MAX`.
    pub open spec fn wf(&self) -> bool {
        &&& self.cum_neg@.len() == self.cum_pos@.len()
        &&& forall|a: int, b: int|
            0 <= a <= b < self.len() ==> #[trigger] self.cum_pos@[a] <= #[trigger] self.cum_pos@[b]
        &&& forall|a: int, b: int|
            0 <= a <= b < self.len() ==> #[trigger] self.cum_neg@[a] <= #[trigger] self.cum_neg@[b]
        &&& self.total_pos as int == self.cpos(self.len() - 1)
        &&& self.total_neg as int == self.cneg(self.len() - 1)
        &&& self.total_pos + self.total_neg < COUNT_MAX
    }

    /// Builds the cumulative counts of per-prebin counts `pos` and `neg`.
    pub fn new(pos: &Vec<u64>, neg: &Vec<u64>) -> (r: PrefixCounts)
        requires
            pos@.len() == neg@.len(),
            prefix_sum(pos@, pos@.len() as int) + prefix_sum(neg@, neg@.len() as int) < COUNT_MAX,
        ensures
            r.wf(),
            r.len() == pos@.len(),
            forall|k: int| 0 <= k < r.len() ==> #[trigger] r.cum_pos@[k] as int == prefix_sum(pos@, k + 1),
            forall|k: int| 0 <= k < r.len() ==> #[trigger] r.cum_neg@[k] as int == prefix_sum(neg@, k + 1),
            r.total_pos as int == prefix_sum(pos@, pos@.len() as int),
            r.total_neg as int == prefix_sum(neg@, neg@.len() as int),
    {
        let n = pos.len();
        let mut cum_pos: Vec<u64> = Vec::with_capacity(n);
        let mut cum_neg: Vec<u64> = Vec::with_capacity(n);
        let mut p_acc: u64 = 0;
        let mut n_acc: u64 = 0;
        let mut k: usize = 0;
        while k < n
            invariant
                n == pos@.len(),
                n == neg@.len(),
                k <= n,
                prefix_sum(pos@, n as int) + prefix_sum(neg@, n as int) < COUNT_MAX,
                cum_pos@.len() == k,
                cum_neg@.len() == k,
                p_acc as int == prefix_sum(pos@, k as int),
                n_acc as int == prefix_sum(neg@, k as int),
                forall|a: int| 0 <= a < k ==> #[trigger] cum_pos@[a] as int == prefix_sum(pos@, a + 1),
                forall|a: int| 0 <= a < k ==> #[trigger] cum_neg@[a] as int == prefix_sum(neg@, a + 1),
            decreases n - k,
        {
            proof {
                lemma_prefix_sum_mono(pos@, k + 1, n as int);
                lemma_prefix_sum_mono(neg@, k + 1, n as int);
            }
            p_acc = p_acc + pos[k];
            n_acc = n_acc + neg[k];
            cum_pos.push(p_acc);
            cum_neg.push(n_acc);
            k = k + 1;
        }
        let r = PrefixCounts { cum_pos, cum_neg, total_pos: p_acc, total_neg: n_acc };
        if n > 0 {
            assert(r.cum_pos@[n - 1] as int == prefix_sum(pos@, n as int));
            assert(r.cum_neg@[n - 1] as int == prefix_sum(neg@, n as int));
        }
        assert forall|a: int, b: int| 0 <= a <= b < r.len() implies
            #[trigger] r.cum_pos@[a] <= #[trigger] r.cum_pos@[b]
        by {
            lemma_prefix_sum_mono(pos@, a + 1, b + 1);
        }
        assert forall|a: int, b: int| 0 <= a <= b < r.len() implies
            #[trigger] r.cum_neg@[a] <= #[trigger] r.cum_neg@[b]
        by {
            lemma_prefix_sum_mono(neg@, a + 1, b + 1);
        }
        r
    }

    /// Counts in prebins `i..=j`.
    pub fn get_counts(&self, i: usize, j: usize) -> (r: (u64, u64))
        requires
            self.wf(),
            i <= j < self.len(),
        ensures
            r.0 as int == self.pos_in(i as int, j as int),
            r.1 as int == self.neg_in(i as int, j as int),
            r.0 + r.1 < COUNT_MAX,
    {
        proof {
            self.lemma_range(i as int, j as int);
        }
        if i == 0 {
            (self.cum_pos[j], self.cum_neg[j])
        } else {
            (self.cum_pos[j] - self.cum_pos[i - 1], self.cum_neg[j] - self.cum_neg[i - 1])
        }
    }

    /// A range's counts are non-negative and bounded by the totals.
    pub proof fn lemma_range(&self, i: int, j: int)
        requires
            self.wf(),
            0 <= i <= j < self.len(),
        ensures
            0 <= self.pos_in(i, j) <= self.total_pos,
            0 <= self.neg_in(i, j) <= self.total_neg,
    {
        assert(self.cum_pos@[j] <= self.cum_pos@[self.len() - 1]);
        assert(self.cum_neg@[j] <= self.cum_neg@[self.len() - 1]);
        if i > 0 {
            assert(self.cum_pos@[i - 1] <= self.cum_pos@[j]);
            assert(self.cum_neg@[i - 1] <= self.cum_neg@[j]);
        }
    }
}

} // verus!
