//! Parallel sorting of order keys.
use rayon::slice::ParallelSliceMut;
use vstd::prelude::*;

verus! {

/// `s` is in ascending order.
pub open spec fn ascending(s: Seq<i64>) -> bool {
    forall|a: int, b: int| 0 <= a <= b < s.len() ==> #[trigger] s[a] <= #[trigger] s[b]
}

/// Relies on rayon's `ParallelSliceMut::par_sort_unstable`: it reorders the
/// keys in place into ascending order.
#[verifier::external_body]
pub(crate) fn par_sort_keys(v: &mut Vec<i64>)
    ensures
        final(v)@.len() == old(v)@.len(),
        final(v)@.to_multiset() == old(v)@.to_multiset(),
        ascending(final(v)@),
{
    v.par_sort_unstable();
}

/// A category with its positives and negatives.
pub type Group = (i64, u64, u64);

/// `a` comes strictly before `b`: a lower event rate `p / (p + n)`, compared
/// as `p_a * n_b < p_b * n_a`, or the same rate and a lower code.
pub open spec fn group_before(a: Group, b: Group) -> bool {
    let l = a.1 as int * b.2 as int;
    let r = b.1 as int * a.2 as int;
    l < r || (l == r && a.0 < b.0)
}

/// No element comes strictly before one that precedes it.
pub open spec fn groups_ordered(s: Seq<Group>) -> bool {
    forall|i: int, j: int| 0 <= i < j < s.len() ==> !group_before(#[trigger] s[j], #[trigger] s[i])
}

/// Compares two categories by event rate, then by code.
pub fn compare_groups(a: &Group, b: &Group) -> (r: core::cmp::Ordering)
    ensures
        (r == core::cmp::Ordering::Less) == group_before(*a, *b),
        (r == core::cmp::Ordering::Greater) == group_before(*b, *a),
{
    assert(a.1 * b.2 <= u64::MAX * u64::MAX) by (nonlinear_arith)
        requires
            a.1 <= u64::MAX,
            b.2 <= u64::MAX,
    ;
    assert(b.1 * a.2 <= u64::MAX * u64::MAX) by (nonlinear_arith)
        requires
            b.1 <= u64::MAX,
            a.2 <= u64::MAX,
    ;
    let l: u128 = a.1 as u128 * b.2 as u128;
    let r: u128 = b.1 as u128 * a.2 as u128;
    if l < r || (l == r && a.0 < b.0) {
        core::cmp::Ordering::Less
    } else if l > r || (l == r && a.0 > b.0) {
        core::cmp::Ordering::Greater
    } else {
        core::cmp::Ordering::Equal
    }
}

/// Relies on `slice::sort_by` (std): it reorders the elements in place into
/// the order of the comparator, here `compare_groups`, which is a total order
/// on categories that hold at least one sample.
#[verifier::external_body]
pub(crate) fn sort_groups(v: &mut Vec<Group>)
    requires
        forall|i: int| 0 <= i < old(v)@.len() ==> (#[trigger] old(v)@[i]).1 + old(v)@[i].2 >= 1,
    ensures
        final(v)@.len() == old(v)@.len(),
        final(v)@.to_multiset() == old(v)@.to_multiset(),
        groups_ordered(final(v)@),
{
    v.sort_by(|a, b| compare_groups(a, b));
}

} // verus!
