//! Equal-count prebinning by position, merging neighbouring chunks that share
//! a value.
use vstd::prelude::*;
use crate::counts::{lemma_prefix_sum_mono, lemma_prefix_sum_push, prefix_sum, COUNT_MAX};
use crate::input::{lemma_counts_bounded, lemma_split_counts, present_neg, present_pos};
use crate::numerical::{missing_at, present_at};
use crate::sorting::{ascending, par_sort_keys};

verus! {

/// A prebin over `[left, right]` with its counts; the missing prebin has no
/// edges and the single category `Missing`.
#[derive(Debug)]
pub struct Bin {
    pub left: Option<i64>,
    pub right: Option<i64>,
    pub pos: u64,
    pub neg: u64,
    pub count: u64,
    pub categories: Vec<String>,
}

pub open spec fn bins_pos(bins: Seq<Bin>) -> int {
    prefix_sum(bins.map_values(|b: Bin| b.pos), bins.len() as int)
}

pub open spec fn bins_neg(bins: Seq<Bin>) -> int {
    prefix_sum(bins.map_values(|b: Bin| b.neg), bins.len() as int)
}

/// Each prebin is a non-empty closed range of values with `count = pos + neg`,
/// and each lies wholly above the one before.
pub open spec fn chunk_bins_wf(bins: Seq<Bin>) -> bool {
    &&& forall|b: int|
        0 <= b < bins.len() ==> {
            &&& (#[trigger] bins[b]).left is Some
            &&& bins[b].right is Some
            &&& bins[b].left->Some_0 <= bins[b].right->Some_0
            &&& bins[b].count == bins[b].pos + bins[b].neg
            &&& bins[b].count >= 1
            &&& bins[b].categories@.len() == 0
        }
    &&& forall|b: int| 0 < b < bins.len() ==> bins[b - 1].right->Some_0 < (#[trigger] bins[b]).left->Some_0
}

proof fn lemma_bins_sums_push(bins: Seq<Bin>, x: Bin)
    ensures
        bins_pos(bins.push(x)) == bins_pos(bins) + x.pos,
        bins_neg(bins.push(x)) == bins_neg(bins) + x.neg,
{
    let f = |b: Bin| b.pos;
    let g = |b: Bin| b.neg;
    assert(bins.push(x).map_values(f) =~= bins.map_values(f).push(x.pos));
    assert(bins.push(x).map_values(g) =~= bins.map_values(g).push(x.neg));
    lemma_prefix_sum_push(bins.map_values(f), x.pos, bins.len() as int);
    lemma_prefix_sum_push(bins.map_values(g), x.neg, bins.len() as int);
}

/// Sorts the present values of `x` and cuts them into chunks of
/// `ceil(n / initial_bins_count)` values by position; a chunk that starts on
/// the value the previous prebin ends with joins that prebin. Missing values
/// form a separate prebin when there are any.
#[verifier::rlimit(60)]
pub fn initial_bins_optimized(x: &Vec<Option<i64>>, y: &Vec<i32>, initial_bins_count: usize) -> (r: (Vec<Bin>, Option<Bin>))
    requires
        x@.len() == y@.len(),
        x@.len() < COUNT_MAX,
        initial_bins_count >= 1,
    ensures
        chunk_bins_wf(r.0@),
        r.0@.len() <= initial_bins_count,
        bins_pos(r.0@) == present_pos(present_at(x@), y@, x@.len() as int),
        bins_neg(r.0@) == present_neg(present_at(x@), y@, x@.len() as int),
        match r.1 {
            Some(m) => {
                &&& m.pos == present_pos(missing_at(x@), y@, x@.len() as int)
                &&& m.neg == present_neg(missing_at(x@), y@, x@.len() as int)
                &&& m.count == m.pos + m.neg
                &&& m.count >= 1
                &&& m.left is None && m.right is None
                &&& m.categories@.len() == 1
                &&& m.categories@[0]@ == "Missing"@
            },
            None => present_pos(missing_at(x@), y@, x@.len() as int) + present_neg(missing_at(x@), y@, x@.len() as int) == 0,
        },
{
    let n = x.len();
    let ghost pr = present_at(x@);
    let ghost ms = missing_at(x@);
    let mut pkeys: Vec<i64> = Vec::new();
    let mut nkeys: Vec<i64> = Vec::new();
    let mut missing_pos: u64 = 0;
    let mut missing_neg: u64 = 0;
    let mut i: usize = 0;
    while i < n
        invariant
            n == x@.len(),
            n == y@.len(),
            n < COUNT_MAX,
            i <= n,
            pkeys@.len() == present_pos(pr, y@, i as int),
            nkeys@.len() == present_neg(pr, y@, i as int),
            missing_pos == present_pos(ms, y@, i as int),
            missing_neg == present_neg(ms, y@, i as int),
            pr == present_at(x@),
            ms == missing_at(x@),
        decreases n - i,
    {
        proof {
            lemma_counts_bounded(pr, y@, i as int);
            lemma_counts_bounded(ms, y@, i as int);
        }
        match x[i] {
            Some(v) => {
                if y[i] == 1 {
                    pkeys.push(v);
                } else {
                    nkeys.push(v);
                }
            },
            None => {
                if y[i] == 1 {
                    missing_pos = missing_pos + 1;
                } else {
                    missing_neg = missing_neg + 1;
                }
            },
        }
        i = i + 1;
    }
    proof {
        assert forall|j: int| #[trigger] ms(j) == !pr(j) by {}
        lemma_split_counts(pr, ms, y@, n as int);
    }
    par_sort_keys(&mut pkeys);
    par_sort_keys(&mut nkeys);
    let pk = pkeys.len();
    let nk = nkeys.len();
    let total = pk + nk;
    let missing_bin = if missing_pos + missing_neg > 0 {
        let mut cats: Vec<String> = Vec::new();
        cats.push("Missing".to_owned());
        Some(Bin {
            left: None,
            right: None,
            pos: missing_pos,
            neg: missing_neg,
            count: missing_pos + missing_neg,
            categories: cats,
        })
    } else {
        None
    };
    let mut bins: Vec<Bin> = Vec::new();
    if total == 0 {
        return (bins, missing_bin);
    }
    let wide: u128 = (total as u128 + initial_bins_count as u128 - 1) / initial_bins_count as u128;
    proof {
        crate::numerical::lemma_ceil_div(total as int, initial_bins_count as int, wide as int);
        assert(wide <= total) by (nonlinear_arith)
            requires
                wide == (total + initial_bins_count - 1) / initial_bins_count as int,
                total >= 1,
                initial_bins_count >= 1,
        ;
    }
    let chunk: u64 = wide as u64;
    let ghost mut chunks: int = 0;
    let mut a: usize = 0;
    let mut b: usize = 0;
    let mut in_chunk: u64 = 0;
    let mut chunk_left: i64 = 0;
    let mut chunk_p: u64 = 0;
    let mut chunk_n: u64 = 0;
    let mut last: i64 = 0;
    while a < pk || b < nk
        invariant
            pk == pkeys@.len(),
            nk == nkeys@.len(),
            pk + nk < COUNT_MAX,
            ascending(pkeys@),
            ascending(nkeys@),
            a <= pk,
            b <= nk,
            chunk >= 1,
            in_chunk == chunk_p + chunk_n,
            in_chunk < chunk,
            bins_pos(bins@) + chunk_p == a,
            bins_neg(bins@) + chunk_n == b,
            chunk_bins_wf(bins@),
            a + b > 0 ==> (a < pk ==> pkeys@[a as int] >= last),
            a + b > 0 ==> (b < nk ==> nkeys@[b as int] >= last),
            in_chunk > 0 ==> chunk_left <= last,
            bins@.len() > 0 ==> bins@.last().right->Some_0 <= last,
            bins@.len() > 0 && in_chunk > 0 ==> bins@.last().right->Some_0 <= chunk_left,
            (a == pk && b == nk) ==> in_chunk == 0,
            bins_pos(bins@) >= 0,
            bins_neg(bins@) >= 0,
            bins@.len() > 0 ==> bins@.last().count + in_chunk <= a + b,
            0 <= chunks,
            bins@.len() <= chunks,
            (a < pk || b < nk) ==> chunks * chunk <= a + b - in_chunk,
            chunks >= 1 ==> (chunks - 1) * chunk + 1 <= a + b - in_chunk,
        decreases pk + nk - (a + b),
    {
        let take_pos = a < pk && (b >= nk || pkeys[a] <= nkeys[b]);
        let v = if take_pos {
            pkeys[a]
        } else {
            nkeys[b]
        };
        if take_pos {
            a = a + 1;
            chunk_p = chunk_p + 1;
        } else {
            b = b + 1;
            chunk_n = chunk_n + 1;
        }
        if in_chunk == 0 {
            chunk_left = v;
        }
        in_chunk = in_chunk + 1;
        last = v;
        if in_chunk == chunk || (a == pk && b == nk) {
            let len = bins.len();
            if len > 0 && bins[len - 1].right.unwrap_or(i64::MIN) >= chunk_left {
                let prev = &bins[len - 1];
                let merged = Bin {
                    left: prev.left,
                    right: Some(v),
                    pos: prev.pos + chunk_p,
                    neg: prev.neg + chunk_n,
                    count: prev.count + in_chunk,
                    categories: Vec::new(),
                };
                proof {
                    let s = bins@;
                    lemma_prefix_sum_mono(s.drop_last().push(merged).map_values(|b: Bin| b.pos), 0, len as int);
                    lemma_prefix_sum_mono(s.drop_last().push(merged).map_values(|b: Bin| b.neg), 0, len as int);
                    assert(s =~= s.drop_last().push(s.last()));
                    lemma_bins_sums_push(s.drop_last(), s.last());
                    lemma_bins_sums_push(s.drop_last(), merged);
                    assert(s.update(len - 1, merged) =~= s.drop_last().push(merged));
                }
                bins.set(len - 1, merged);
            } else {
                let fresh = Bin {
                    left: Some(chunk_left),
                    right: Some(v),
                    pos: chunk_p,
                    neg: chunk_n,
                    count: in_chunk,
                    categories: Vec::new(),
                };
                proof {
                    lemma_bins_sums_push(bins@, fresh);
                }
                bins.push(fresh);
            }
            proof {
                assert((chunks + 1) * chunk == chunks * chunk + chunk) by (nonlinear_arith);
                assert(chunks * chunk == (chunks - 1) * chunk + chunk) by (nonlinear_arith);
                chunks = chunks + 1;
            }
            in_chunk = 0;
            chunk_p = 0;
            chunk_n = 0;
        }
    }
    proof {
        crate::numerical::lemma_prebin_bound(chunks, chunk as int, total as int, initial_bins_count as int);
    }
    (bins, missing_bin)
}

} // verus!
