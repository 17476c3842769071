use fastbinning::categorical::{prebin_codes, CategoricalBinning, MISSING_CODE};
use fastbinning::counts::PrefixCounts;
use fastbinning::error::BinningError;
use fastbinning::optimizer::GAIN_MAX;
use fastbinning::precategorical::PreCatBinStats;
use fastbinning::sorting::compare_groups;
use std::cmp::Ordering;

fn iv(p: u64, n: u64, tp: u64, tn: u64) -> f64 {
    let py = if p > 0 { p as f64 / tp as f64 } else { 0.5 / tp as f64 };
    let pn = if n > 0 { n as f64 / tn as f64 } else { 0.5 / tn as f64 };
    (py - pn) * (py / pn).ln()
}

fn gains_for(c: &PrefixCounts) -> Vec<Vec<i64>> {
    let n = c.cum_pos.len();
    let mut g = vec![vec![0i64; n]; n];
    for i in 0..n {
        for j in i..n {
            let (p, q) = c.get_counts(i, j);
            if (p == 0 && q == 0) || c.total_pos == 0 || c.total_neg == 0 {
                continue;
            }
            g[i][j] = ((iv(p, q, c.total_pos, c.total_neg) * 1e9).round() as i64).clamp(0, GAIN_MAX);
        }
    }
    g
}

fn fitted(x: &Vec<i32>, y: &Vec<i32>, max_bins: usize) -> CategoricalBinning {
    let mut b = CategoricalBinning::pynew(max_bins, 0, 1_000_000).unwrap();
    let stats = b.prebinning(x, y).unwrap();
    let gains = gains_for(&stats.counts);
    b.fit(&stats, &gains);
    b
}

#[test]
fn categories_ordered_by_event_rate() {
    let x = vec![0, 0, 1, 1, 2, 2];
    let y = vec![0, 0, 0, 1, 1, 1];
    let b = CategoricalBinning::pynew(3, 0, 1_000_000).unwrap();
    let stats = b.prebinning(&x, &y).unwrap();
    assert_eq!(stats.indices, vec![0, 1, 2]);
    let b = fitted(&x, &y, 3);
    let bins = b.bins().unwrap();
    assert_eq!(bins.len(), 3);
    assert_eq!(bins[0].indices, vec![0]);
    assert_eq!(bins[1].indices, vec![1]);
    assert_eq!(bins[2].indices, vec![2]);
    assert_eq!((bins[1].pos, bins[1].neg), (1, 1));
}

#[test]
fn rate_order_is_not_code_order() {
    let x = vec![5, 5, 5, 3, 3, 9, 9, 9, 9];
    let y = vec![1, 1, 1, 0, 1, 0, 0, 0, 1];
    let stats = prebin_codes(&x, &y);
    assert_eq!(stats.indices, vec![9, 3, 5]);
    assert_eq!(stats.get_counts(0, 0), (1, 3));
    assert_eq!(stats.get_counts(1, 2), (4, 1));
}

#[test]
fn equal_rates_break_ties_by_code() {
    let x = vec![7, 7, 2, 2];
    let y = vec![0, 1, 1, 0];
    let stats = prebin_codes(&x, &y);
    assert_eq!(stats.indices, vec![2, 7]);
    assert_eq!(compare_groups(&(2, 1, 1), &(7, 1, 1)), Ordering::Less);
    assert_eq!(compare_groups(&(7, 1, 1), &(2, 2, 2)), Ordering::Greater);
    assert_eq!(compare_groups(&(3, 0, 4), &(1, 1, 0)), Ordering::Less);
    assert_eq!(compare_groups(&(4, 2, 6), &(4, 1, 3)), Ordering::Equal);
}

#[test]
fn unknown_category_maps_to_missing() {
    let x = vec![0, 0, 1, 1, 2, 2];
    let y = vec![0, 0, 0, 1, 1, 1];
    let b = fitted(&x, &y, 3);
    assert_eq!(b.transform(&vec![3]).unwrap(), vec![None]);
    let x2 = vec![0, 0, 1, 1, 2, 2, MISSING_CODE];
    let y2 = vec![0, 0, 0, 1, 1, 1, 1];
    let b2 = fitted(&x2, &y2, 3);
    let k = b2.bins().unwrap().len() - 1;
    assert_eq!(b2.transform(&vec![3, MISSING_CODE, 2]).unwrap()[..2], [Some(k), Some(k)]);
}

#[test]
fn categorical_missing_bin_holds_missing_code() {
    let x = vec![1, 1, 2, 2, MISSING_CODE, MISSING_CODE, MISSING_CODE];
    let y = vec![0, 1, 1, 1, 0, 0, 1];
    let b = fitted(&x, &y, 2);
    let bins = b.bins().unwrap();
    let last = bins.last().unwrap();
    assert!(last.is_missing);
    assert_eq!(last.indices, vec![MISSING_CODE]);
    assert_eq!((last.pos, last.neg), (1, 2));
    assert_eq!(last.bin_id, bins.len() - 1);
}

#[test]
fn categorical_bins_partition_categories() {
    let x: Vec<i32> = (0..200).map(|i| (i * 7) % 13).collect();
    let y: Vec<i32> = (0..200).map(|i| (((i * 7) % 13) * 3 + i) % 5 / 3).collect();
    let b = fitted(&x, &y, 4);
    let bins = b.bins().unwrap();
    let mut seen: Vec<i32> = bins.iter().filter(|b| !b.is_missing).flat_map(|b| b.indices.clone()).collect();
    seen.sort();
    assert_eq!(seen, (0..13).collect::<Vec<i32>>());
    let pos: u64 = bins.iter().map(|b| b.pos).sum();
    let neg: u64 = bins.iter().map(|b| b.neg).sum();
    assert_eq!(pos, y.iter().filter(|&&t| t == 1).count() as u64);
    assert_eq!(pos + neg, 200);
    assert!(bins.len() <= 4);
    let out = b.transform(&x).unwrap();
    for (i, &v) in x.iter().enumerate() {
        let bi = out[i].unwrap();
        assert!(bins[bi].indices.contains(&v));
    }
}

#[test]
fn categorical_infeasible_size_gives_one_bin() {
    let x = vec![0, 0, 1, 1, 2, 2, 3, 3, 4, 4];
    let y = vec![0, 1, 0, 1, 0, 1, 0, 1, 0, 1];
    let mut b = CategoricalBinning::pynew(3, 600_000, 1_000_000).unwrap();
    let stats = b.prebinning(&x, &y).unwrap();
    let gains = gains_for(&stats.counts);
    let bins = b.fit(&stats, &gains);
    assert_eq!(bins.len(), 1);
    assert_eq!(bins[0].indices.len(), 5);
    assert_eq!((bins[0].pos, bins[0].neg), (5, 5));
}

#[test]
fn categorical_fit_transform_matches() {
    let x = vec![4, 4, 8, 8, 8, 1, MISSING_CODE];
    let y = vec![1, 0, 0, 0, 1, 1, 0];
    let mut a = CategoricalBinning::pynew(2, 0, 1_000_000).unwrap();
    let stats = a.prebinning(&x, &y).unwrap();
    let gains = gains_for(&stats.counts);
    let direct = a.fit_transform(&stats, &gains, &x);
    let b = fitted(&x, &y, 2);
    assert_eq!(direct, b.transform(&x).unwrap());
}

#[test]
fn categorical_errors() {
    assert_eq!(CategoricalBinning::pynew(2, 700_000, 300_000).err(), Some(BinningError::InvalidConfig));
    let b = CategoricalBinning::new(2, 0, 1_000_000);
    assert_eq!(b.transform(&vec![1]).err(), Some(BinningError::NotFitted));
    assert_eq!(b.bins().err(), Some(BinningError::NotFitted));
    assert_eq!(b.prebinning(&vec![1, 2], &vec![1]).err(), Some(BinningError::InvalidInput));
    assert_eq!(b.prebinning(&vec![1], &vec![3]).err(), Some(BinningError::InvalidInput));
    assert_eq!(b.prebinning(&vec![], &vec![]).err(), Some(BinningError::InvalidInput));
}

#[test]
fn only_missing_codes_give_one_empty_bin() {
    let x = vec![MISSING_CODE, MISSING_CODE];
    let y = vec![0, 1];
    let mut b = CategoricalBinning::pynew(2, 0, 1_000_000).unwrap();
    let stats = b.prebinning(&x, &y).unwrap();
    let bins = b.fit(&stats, &Vec::new());
    assert_eq!(bins.len(), 2);
    assert!(bins[0].indices.is_empty());
    assert!(bins[1].is_missing);
}

#[test]
fn precategorical_stats_ranges() {
    let s = PreCatBinStats::new(&vec![0, 2, 5], &vec![3, 2, 1], vec![4, 1, 9], 1, 0);
    assert_eq!(s.get_counts(0, 1), (2, 5));
    assert_eq!(s.get_counts(2, 2), (5, 1));
    assert_eq!(s.indices, vec![4, 1, 9]);
    assert_eq!((s.counts.total_pos, s.counts.total_neg), (7, 6));
}
