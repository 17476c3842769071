//! Prebin statistics of a numerical predictor.
use vstd::prelude::*;
use crate::counts::{prefix_sum, PrefixCounts, COUNT_MAX};
use crate::optimizer::PREBIN_MAX;

verus! {

/// Ordered prebins of a numerical predictor: prebin `k` holds the values in
/// `(edges[k - 1], edges[k]]` (the first one everything up to `edges[0]`),
/// with their counts in `counts`; missing values are counted apart.
pub struct PreNumBinStats {
    pub counts: PrefixCounts,
    pub edges: Vec<i64>,
    pub missing_pos: u64,
    pub missing_neg: u64,
}

impl PreNumBinStats {
    /// The counts are consistent, one edge per prebin, edges strictly ascending,
    /// and the grand totals below `COUNT_MAX`.
    pub open spec fn wf(&self) -> bool {
        &&& self.counts.wf()
        &&& self.edges@.len() == self.counts.len()
        &&& self.counts.len() <= PREBIN_MAX
        &&& forall|k1: int, k2: int|
            0 <= k1 < k2 < self.edges@.len() ==> #[trigger] self.edges@[k1] < #[trigger] self.edges@[k2]
        &&& self.counts.total_pos + self.counts.total_neg + self.missing_pos + self.missing_neg < COUNT_MAX
    }

    /// Statistics of prebins with counts `pos[k]`, `neg[k]` and right edges `edges[k]`.
    pub fn new(pos: &Vec<u64>, neg: &Vec<u64>, edges: Vec<i64>, missing_pos: u64, missing_neg: u64) -> (r: Self)
        requires
            pos@.len() == neg@.len(),
            prefix_sum(pos@, pos@.len() as int) + prefix_sum(neg@, neg@.len() as int) < COUNT_MAX,
        ensures
            r.counts.len() == pos@.len(),
            r.counts.wf(),
            forall|k: int| 0 <= k < r.counts.len() ==> #[trigger] r.counts.cum_pos@[k] as int == prefix_sum(pos@, k + 1),
            forall|k: int| 0 <= k < r.counts.len() ==> #[trigger] r.counts.cum_neg@[k] as int == prefix_sum(neg@, k + 1),
            r.counts.total_pos as int == prefix_sum(pos@, pos@.len() as int),
            r.counts.total_neg as int == prefix_sum(neg@, neg@.len() as int),
            r.edges == edges,
            r.missing_pos == missing_pos,
            r.missing_neg == missing_neg,
    {
        PreNumBinStats { counts: PrefixCounts::new(pos, neg), edges, missing_pos, missing_neg }
    }

    /// Counts in prebins `i..=j`.
    pub fn get_counts(&self, i: usize, j: usize) -> (r: (u64, u64))
        requires
            self.counts.wf(),
            i <= j < self.counts.len(),
        ensures
            r.0 as int == self.counts.pos_in(i as int, j as int),
            r.1 as int == self.counts.neg_in(i as int, j as int),
    {
        self.counts.get_counts(i, j)
    }
}

} // verus!
