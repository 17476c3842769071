//! Prebin statistics of a categorical predictor.
use vstd::prelude::*;
use crate::counts::{prefix_sum, PrefixCounts, COUNT_MAX};
use crate::sorting::Group;

verus! {

/// Ordered prebins of a categorical predictor: prebin `k` is the category
/// `indices[k]`, with its counts in `counts`; the missing code is counted apart.
pub struct PreCatBinStats {
    pub counts: PrefixCounts,
    pub indices: Vec<i32>,
    pub missing_pos: u64,
    pub missing_neg: u64,
}

impl PreCatBinStats {
    /// The counts are consistent, one distinct code per prebin, and the grand
    /// totals below `COUNT_MAX`.
    pub open spec fn wf(&self) -> bool {
        &&& self.counts.wf()
        &&& self.indices@.len() == self.counts.len()
        &&& self.indices@.no_duplicates()
        &&& self.counts.total_pos + self.counts.total_neg + self.missing_pos + self.missing_neg < COUNT_MAX
    }

    /// Statistics of prebins with counts `pos[k]`, `neg[k]` and codes `indices[k]`.
    pub fn new(pos: &Vec<u64>, neg: &Vec<u64>, indices: Vec<i32>, missing_pos: u64, missing_neg: u64) -> (r: Self)
        requires
            pos@.len() == neg@.len(),
            prefix_sum(pos@, pos@.len() as int) + prefix_sum(neg@, neg@.len() as int) < COUNT_MAX,
        ensures
            r.counts.len() == pos@.len(),
            r.counts.wf(),
            forall|k: int| 0 <= k < r.counts.len() ==> #[trigger] r.counts.cum_pos@[k] as int == prefix_sum(pos@, k + 1),
            forall|k: int| 0 <= k < r.counts.len() ==> #[trigger] r.counts.cum_neg@[k] as int == prefix_sum(neg@, k + 1),
            r.counts.total_pos as int == prefix_sum(pos@, pos@.len() as int),
            r.counts.total_neg as int == prefix_sum(neg@, neg@.len() as int),
            r.indices == indices,
            r.missing_pos == missing_pos,
            r.missing_neg == missing_neg,
    {
        PreCatBinStats { counts: PrefixCounts::new(pos, neg), indices, missing_pos, missing_neg }
    }

    /// Counts in prebins `i..=j`.
    pub fn get_counts(&self, i: usize, j: usize) -> (r: (u64, u64))
        requires
            self.counts.wf(),
            i <= j < self.counts.len(),
        ensures
            r.0 as int == self.counts.pos_in(i as int, j as int),
            r.1 as int == self.counts.neg_in(i as int, j as int),
    {
        self.counts.get_counts(i, j)
    }
}

/// Sum of the positives (`which` true) or negatives of the groups.
pub open spec fn group_sum(s: Seq<Group>, which: bool) -> int
    decreases s.len(),
{
    if s.len() == 0 {
        0
    } else {
        group_sum(s.drop_last(), which) + if which { s.last().1 as int } else { s.last().2 as int }
    }
}

proof fn lemma_group_sum_remove(s: Seq<Group>, which: bool, i: int)
    requires
        0 <= i < s.len(),
    ensures
        group_sum(s, which) == group_sum(s.remove(i), which) + if which { s[i].1 as int } else { s[i].2 as int },
    decreases s.len(),
{
    if i == s.len() - 1 {
        assert(s.remove(i) =~= s.drop_last());
    } else {
        lemma_group_sum_remove(s.drop_last(), which, i);
        assert(s.remove(i).drop_last() =~= s.drop_last().remove(i));
        assert(s.remove(i).last() == s.last());
    }
}

/// Reordering groups keeps their sums.
pub proof fn lemma_group_sum_perm(s1: Seq<Group>, s2: Seq<Group>, which: bool)
    requires
        s1.to_multiset() == s2.to_multiset(),
    ensures
        group_sum(s1, which) == group_sum(s2, which),
    decreases s1.len(),
{
    broadcast use vstd::seq_lib::group_seq_properties;
    broadcast use vstd::multiset::group_multiset_axioms;
    if s1.len() == 0 {
        assert(s2.len() == s2.to_multiset().len());
        assert(s2.len() == 0);
    } else {
        let x = s1.last();
        assert(s1.contains(x)) by {
            assert(s1[s1.len() - 1] == x);
        }
        assert(s1.to_multiset().count(x) > 0);
        assert(s2.contains(x));
        let i = choose|i: int| 0 <= i < s2.len() && s2[i] == x;
        assert(s1.drop_last() =~= s1.remove(s1.len() - 1));
        assert(s1.drop_last().to_multiset() =~= s1.to_multiset().remove(x));
        assert(s2.remove(i).to_multiset() =~= s2.to_multiset().remove(x));
        lemma_group_sum_perm(s1.drop_last(), s2.remove(i), which);
        lemma_group_sum_remove(s2, which, i);
    }
}

/// Reordering groups whose codes are distinct keeps the codes distinct.
pub proof fn lemma_codes_distinct_perm(s1: Seq<Group>, s2: Seq<Group>)
    requires
        s1.to_multiset() == s2.to_multiset(),
        forall|i: int, j: int| 0 <= i < s1.len() && 0 <= j < s1.len() && i != j ==> #[trigger] s1[i].0 != #[trigger] s1[j].0,
    ensures
        forall|i: int, j: int| 0 <= i < s2.len() && 0 <= j < s2.len() && i != j ==> #[trigger] s2[i].0 != #[trigger] s2[j].0,
{
    broadcast use vstd::seq_lib::group_seq_properties;
    assert forall|i: int, j: int| 0 <= i < s1.len() && 0 <= j < s1.len() && i != j implies s1[i] != s1[j] by {
        assert(s1[i].0 != s1[j].0);
    }
    assert(s1.no_duplicates());
    s1.lemma_multiset_has_no_duplicates();
    assert forall|x: Group| s2.to_multiset().contains(x) implies s2.to_multiset().count(x) == 1 by {}
    s2.lemma_multiset_has_no_duplicates_conv();
    assert forall|i: int, j: int| 0 <= i < s2.len() && 0 <= j < s2.len() && i != j implies #[trigger] s2[i].0 != #[trigger] s2[j].0 by {
        if s2[i].0 == s2[j].0 {
            assert(s2.contains(s2[i]));
            assert(s2.contains(s2[j]));
            assert(s2.to_multiset().count(s2[i]) > 0);
            assert(s2.to_multiset().count(s2[j]) > 0);
            assert(s1.contains(s2[i]));
            assert(s1.contains(s2[j]));
            let i1 = choose|a: int| 0 <= a < s1.len() && s1[a] == s2[i];
            let j1 = choose|a: int| 0 <= a < s1.len() && s1[a] == s2[j];
            assert(s1[i1].0 == s1[j1].0);
            assert(s2[i] != s2[j]);
        }
    }
}

} // verus!
