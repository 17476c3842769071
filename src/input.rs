//! Counting the rows of an input by target and by whether the value is missing.
use vstd::prelude::*;

verus! {

/// Rows `0..m` whose value is present and whose target is 1.
pub open spec fn present_pos(present: spec_fn(int) -> bool, y: Seq<i32>, m: int) -> nat
    decreases m,
{
    if m <= 0 {
        0
    } else {
        present_pos(present, y, m - 1) + if present(m - 1) && y[m - 1] == 1 { 1nat } else { 0nat }
    }
}

/// Rows `0..m` whose value is present and whose target is not 1.
pub open spec fn present_neg(present: spec_fn(int) -> bool, y: Seq<i32>, m: int) -> nat
    decreases m,
{
    if m <= 0 {
        0
    } else {
        present_neg(present, y, m - 1) + if present(m - 1) && y[m - 1] != 1 { 1nat } else { 0nat }
    }
}

/// Rows `0..m` whose target is 1.
pub open spec fn positives(y: Seq<i32>, m: int) -> nat
    decreases m,
{
    if m <= 0 {
        0
    } else {
        positives(y, m - 1) + if y[m - 1] == 1 { 1nat } else { 0nat }
    }
}

/// Every target is 0 or 1.
pub open spec fn binary_targets(y: Seq<i32>) -> bool {
    forall|i: int| 0 <= i < y.len() ==> (#[trigger] y[i] == 0 || y[i] == 1)
}

/// The rows split into present and absent ones, by target.
pub proof fn lemma_split_counts(present: spec_fn(int) -> bool, absent: spec_fn(int) -> bool, y: Seq<i32>, m: int)
    requires
        0 <= m <= y.len(),
        forall|i: int| #[trigger] absent(i) == !present(i),
    ensures
        present_pos(present, y, m) + present_pos(absent, y, m) == positives(y, m),
        present_pos(present, y, m) + present_neg(present, y, m) + present_pos(absent, y, m)
            + present_neg(absent, y, m) == m,
    decreases m,
{
    if m > 0 {
        lemma_split_counts(present, absent, y, m - 1);
    }
}

pub proof fn lemma_counts_bounded(present: spec_fn(int) -> bool, y: Seq<i32>, m: int)
    requires
        0 <= m,
    ensures
        present_pos(present, y, m) + present_neg(present, y, m) <= m,
    decreases m,
{
    if m > 0 {
        lemma_counts_bounded(present, y, m - 1);
    }
}

/// Some row of `0..m` satisfies `present` exactly when the counts of such rows are not both zero.
pub proof fn lemma_some_present(present: spec_fn(int) -> bool, y: Seq<i32>, m: int)
    requires
        0 <= m <= y.len(),
    ensures
        (present_pos(present, y, m) + present_neg(present, y, m) > 0) <==> exists|i: int| 0 <= i < m && #[trigger] present(i),
    decreases m,
{
    if m > 0 {
        lemma_some_present(present, y, m - 1);
        if present(m - 1) {
            assert(present(m - 1));
        }
        if exists|i: int| 0 <= i < m && #[trigger] present(i) {
            let i = choose|i: int| 0 <= i < m && #[trigger] present(i);
            if i < m - 1 {
                assert(exists|i: int| 0 <= i < m - 1 && #[trigger] present(i));
            }
        }
    }
}

} // verus!
