use fastbinning::counts::{woe_at_most, PrefixCounts};
use fastbinning::error::BinningError;
use fastbinning::numerical::{prebin_target, prebinning, NumericalBinning};
use fastbinning::optimizer::{optimize, size_limits, SizeLimits, Trend, GAIN_MAX};
use fastbinning::prenumerical::PreNumBinStats;
use fastbinning::prepare::initial_bins_optimized;

fn key(v: f64) -> Option<i64> {
    if v.is_nan() {
        return None;
    }
    let v = if v == 0.0 { 0.0 } else { v };
    let b = v.to_bits() as i64;
    Some(if b < 0 { b ^ i64::MAX } else { b })
}

fn keys(xs: &[f64]) -> Vec<Option<i64>> {
    xs.iter().map(|&v| key(v)).collect()
}

fn woe_iv(p: u64, n: u64, tp: u64, tn: u64) -> (f64, f64) {
    let py = if p > 0 { p as f64 / tp as f64 } else { 0.5 / tp as f64 };
    let pn = if n > 0 { n as f64 / tn as f64 } else { 0.5 / tn as f64 };
    let woe = (py / pn).ln();
    (woe, (py - pn) * woe)
}

fn gains_for(c: &PrefixCounts) -> Vec<Vec<i64>> {
    let n = c.cum_pos.len();
    let mut g = vec![vec![0i64; n]; n];
    for i in 0..n {
        for j in i..n {
            let (p, q) = c.get_counts(i, j);
            if (p == 0 && q == 0) || c.total_pos == 0 || c.total_neg == 0 {
                continue;
            }
            let (_, iv) = woe_iv(p, q, c.total_pos, c.total_neg);
            g[i][j] = ((iv * 1e9).round() as i64).clamp(0, GAIN_MAX);
        }
    }
    g
}

fn ten() -> (Vec<f64>, Vec<i32>) {
    ((1..=10).map(|v| v as f64).collect(), vec![0, 0, 0, 0, 0, 1, 1, 1, 1, 1])
}

#[test]
fn trivial_numerical_splits_at_five() {
    let (x, y) = ten();
    let xk = keys(&x);
    let mut b = NumericalBinning::pynew(2, 0, 1_000_000).unwrap();
    let stats = b.prebinning(&xk, &y).unwrap();
    let gains = gains_for(&stats.counts);
    let bins = b.fit(&stats, &gains);
    assert_eq!(bins.len(), 2);
    assert_eq!(bins[0].range, (None, key(5.0)));
    assert_eq!(bins[1].range, (key(5.0), None));
    assert_eq!((bins[0].pos, bins[0].neg), (0, 5));
    assert_eq!((bins[1].pos, bins[1].neg), (5, 0));
    assert!(bins.iter().all(|b| !b.is_missing));
    let (w0, _) = woe_iv(bins[0].pos, bins[0].neg, 5, 5);
    let (w1, _) = woe_iv(bins[1].pos, bins[1].neg, 5, 5);
    assert!(w0 < w1);
}

#[test]
fn numerical_missing_gets_trailing_bin() {
    let (mut x, mut y) = ten();
    x.push(f64::NAN);
    x.push(f64::NAN);
    y.push(0);
    y.push(1);
    let xk = keys(&x);
    let mut b = NumericalBinning::pynew(2, 0, 1_000_000).unwrap();
    let stats = b.prebinning(&xk, &y).unwrap();
    assert_eq!((stats.missing_pos, stats.missing_neg), (1, 1));
    let gains = gains_for(&stats.counts);
    let bins = b.fit(&stats, &gains);
    assert_eq!(bins.len(), 3);
    let last = &bins[2];
    assert!(last.is_missing);
    assert_eq!((last.pos, last.neg), (1, 1));
    assert_eq!(last.bin_id, 2);
    assert_eq!(last.range, (None, None));
    assert_eq!(bins[0].range, (None, key(5.0)));
}

#[test]
fn ties_never_straddle_prebins() {
    let x: Vec<f64> = (0..301).map(|i| (i / 7) as f64).collect();
    let y: Vec<i32> = (0..301).map(|i| (i % 2) as i32).collect();
    let stats = prebinning(&keys(&x), &y);
    assert_eq!(prebin_target(301), 100);
    let n = stats.edges.len();
    assert!(n >= 2);
    for k in 1..n {
        assert!(stats.edges[k - 1] < stats.edges[k]);
    }
    for k in 0..n {
        let (p, q) = stats.get_counts(k, k);
        let size = p + q;
        if k + 1 < n {
            assert_eq!(size % 7, 0);
            assert!(size >= 4);
        }
    }
    let mut b = NumericalBinning::pynew(4, 0, 1_000_000).unwrap();
    let gains = gains_for(&stats.counts);
    let bins = b.fit(&stats, &gains);
    let out = b.transform(&keys(&x)).unwrap();
    for i in 1..x.len() {
        if x[i] == x[i - 1] {
            assert_eq!(out[i], out[i - 1]);
        }
    }
    assert!(bins.len() <= 4);
}

#[test]
fn infeasible_size_gives_one_bin() {
    let x: Vec<f64> = (1..=10).map(|v| v as f64).collect();
    let y = vec![0, 1, 0, 1, 0, 1, 0, 1, 0, 1];
    let mut b = NumericalBinning::pynew(3, 600_000, 1_000_000).unwrap();
    let stats = b.prebinning(&keys(&x), &y).unwrap();
    let gains = gains_for(&stats.counts);
    let bins = b.fit(&stats, &gains);
    assert_eq!(bins.len(), 1);
    assert_eq!(bins[0].range, (None, None));
    assert_eq!((bins[0].pos, bins[0].neg), (5, 5));
}

#[test]
fn transform_uses_half_open_ranges() {
    let (mut x, mut y) = ten();
    x.push(f64::NAN);
    y.push(1);
    let mut b = NumericalBinning::pynew(2, 0, 1_000_000).unwrap();
    let stats = b.prebinning(&keys(&x), &y).unwrap();
    let gains = gains_for(&stats.counts);
    b.fit(&stats, &gains);
    let out = b.transform(&keys(&[5.0, 5.5, -1e9, 1e9, f64::NAN, 0.0])).unwrap();
    assert_eq!(out, vec![Some(0), Some(1), Some(0), Some(1), Some(2), Some(0)]);
}

#[test]
fn missing_value_without_missing_bin_maps_to_none() {
    let (x, y) = ten();
    let mut b = NumericalBinning::pynew(2, 0, 1_000_000).unwrap();
    let stats = b.prebinning(&keys(&x), &y).unwrap();
    let gains = gains_for(&stats.counts);
    b.fit(&stats, &gains);
    assert_eq!(b.transform(&vec![None]).unwrap(), vec![None]);
}

#[test]
fn fit_transform_matches_fit_then_transform() {
    let (mut x, mut y) = ten();
    x.push(f64::NAN);
    y.push(0);
    let xk = keys(&x);
    let mut a = NumericalBinning::pynew(3, 0, 1_000_000).unwrap();
    let stats = a.prebinning(&xk, &y).unwrap();
    let gains = gains_for(&stats.counts);
    let direct = a.fit_transform(&stats, &gains, &xk);
    let mut b = NumericalBinning::pynew(3, 0, 1_000_000).unwrap();
    b.fit(&stats, &gains);
    assert_eq!(direct, b.transform(&xk).unwrap());
    assert_eq!(direct.len(), x.len());
}

#[test]
fn counts_add_up_over_bins() {
    let x: Vec<f64> = (0..500).map(|i| ((i * 37) % 101) as f64).collect();
    let mut y: Vec<i32> = (0..500).map(|i| if (i * 37) % 101 > 60 { 1 } else { (i % 5 == 0) as i32 }).collect();
    let mut xs = x.clone();
    xs.push(f64::NAN);
    y.push(1);
    let mut b = NumericalBinning::pynew(5, 50_000, 1_000_000).unwrap();
    let stats = b.prebinning(&keys(&xs), &y).unwrap();
    let gains = gains_for(&stats.counts);
    let bins = b.fit(&stats, &gains);
    let pos: u64 = bins.iter().map(|b| b.pos).sum();
    let neg: u64 = bins.iter().map(|b| b.neg).sum();
    let positives = y.iter().filter(|&&t| t == 1).count() as u64;
    assert_eq!(pos, positives);
    assert_eq!(pos + neg, xs.len() as u64);
    assert_eq!(bins.iter().filter(|b| b.is_missing).count(), 1);
    let k = bins.len() - 1;
    assert!(k <= 5);
    assert_eq!(bins[0].range.0, None);
    assert_eq!(bins[k - 1].range.1, None);
    for i in 1..k {
        assert_eq!(bins[i].range.0, bins[i - 1].range.1);
    }
    let total = stats.counts.total_pos + stats.counts.total_neg;
    if k > 1 {
        for bin in &bins[..k] {
            assert!(bin.pos + bin.neg >= total * 50_000 / 1_000_000);
        }
        let woes: Vec<f64> = bins[..k].iter().map(|b| woe_iv(b.pos, b.neg, 1, 1).0).collect();
        let inc = woes.windows(2).all(|w| w[0] <= w[1]);
        let dec = woes.windows(2).all(|w| w[0] >= w[1]);
        assert!(inc || dec);
    }
}

#[test]
fn only_missing_values_give_one_empty_bin() {
    let x = vec![f64::NAN, f64::NAN];
    let y = vec![1, 0];
    let mut b = NumericalBinning::pynew(3, 0, 1_000_000).unwrap();
    let stats = b.prebinning(&keys(&x), &y).unwrap();
    assert_eq!(stats.edges.len(), 0);
    let bins = b.fit(&stats, &Vec::new());
    assert_eq!(bins.len(), 2);
    assert_eq!((bins[0].pos, bins[0].neg, bins[0].range), (0, 0, (None, None)));
    assert!(bins[1].is_missing);
    assert_eq!(b.transform(&keys(&[3.0, f64::NAN])).unwrap(), vec![Some(0), Some(1)]);
}

#[test]
fn invalid_config_is_rejected() {
    assert_eq!(NumericalBinning::pynew(3, 500_000, 500_000).err(), Some(BinningError::InvalidConfig));
    assert_eq!(NumericalBinning::pynew(3, 600_000, 500_000).err(), Some(BinningError::InvalidConfig));
    assert_eq!(NumericalBinning::pynew(3, 0, 1_000_001).err(), Some(BinningError::InvalidConfig));
    assert_eq!(NumericalBinning::pynew(0, 0, 1_000_000).err(), Some(BinningError::InvalidConfig));
    assert!(NumericalBinning::pynew(1, 0, 1_000_000).is_ok());
}

#[test]
fn invalid_input_is_rejected() {
    let b = NumericalBinning::pynew(2, 0, 1_000_000).unwrap();
    assert_eq!(b.prebinning(&keys(&[1.0, 2.0]), &vec![0]).err(), Some(BinningError::InvalidInput));
    assert_eq!(b.prebinning(&Vec::new(), &Vec::new()).err(), Some(BinningError::InvalidInput));
    assert_eq!(b.prebinning(&keys(&[1.0, 2.0]), &vec![0, 2]).err(), Some(BinningError::InvalidInput));
    assert_eq!(b.prebinning(&keys(&[1.0, 2.0]), &vec![-1, 1]).err(), Some(BinningError::InvalidInput));
}

#[test]
fn transform_before_fit_fails() {
    let b = NumericalBinning::new(2, 0, 1_000_000);
    assert_eq!(b.transform(&keys(&[1.0])).err(), Some(BinningError::NotFitted));
    assert_eq!(b.bins().err(), Some(BinningError::NotFitted));
}

#[test]
fn failed_input_check_keeps_earlier_table() {
    let (x, y) = ten();
    let mut b = NumericalBinning::pynew(2, 0, 1_000_000).unwrap();
    let stats = b.prebinning(&keys(&x), &y).unwrap();
    let gains = gains_for(&stats.counts);
    b.fit(&stats, &gains);
    assert!(b.prebinning(&keys(&x), &vec![0]).is_err());
    assert_eq!(b.bins().unwrap().len(), 2);
}

#[test]
fn prebin_target_is_clamped_square_root() {
    assert_eq!(prebin_target(0), 100);
    assert_eq!(prebin_target(10_000), 100);
    assert_eq!(prebin_target(10_201), 101);
    assert_eq!(prebin_target(40_000), 200);
    assert_eq!(prebin_target(40_399), 200);
    assert_eq!(prebin_target(250_000), 500);
    assert_eq!(prebin_target(10_000_000), 500);
}

#[test]
fn prebins_are_sorted_and_chunked() {
    let x: Vec<f64> = (0..1000).rev().map(|v| v as f64).collect();
    let y: Vec<i32> = (0..1000).map(|v| (v % 3 == 0) as i32).collect();
    let stats = prebinning(&keys(&x), &y);
    assert_eq!(stats.edges.len(), 100);
    assert_eq!(stats.edges[0], key(9.0).unwrap());
    assert_eq!(stats.edges[99], key(999.0).unwrap());
    assert_eq!(stats.get_counts(0, 0).0 + stats.get_counts(0, 0).1, 10);
    assert_eq!(stats.counts.total_pos, 334);
    assert_eq!(stats.counts.total_neg, 666);
}

#[test]
fn prefix_counts_ranges() {
    let c = PrefixCounts::new(&vec![1, 0, 3, 2], &vec![0, 4, 1, 1]);
    assert_eq!(c.cum_pos, vec![1, 1, 4, 6]);
    assert_eq!(c.cum_neg, vec![0, 4, 5, 6]);
    assert_eq!((c.total_pos, c.total_neg), (6, 6));
    assert_eq!(c.get_counts(1, 2), (3, 5));
    assert_eq!(c.get_counts(0, 3), (6, 6));
    let s = PreNumBinStats::new(&vec![2, 3], &vec![1, 0], vec![10, 20], 4, 5);
    assert_eq!(s.get_counts(1, 1), (3, 0));
    assert_eq!((s.missing_pos, s.missing_neg), (4, 5));
}

#[test]
fn woe_order_uses_smoothed_ratios() {
    assert!(woe_at_most(0, 5, 5, 0));
    assert!(!woe_at_most(5, 0, 0, 5));
    assert!(woe_at_most(1, 2, 2, 4));
    assert!(woe_at_most(2, 4, 1, 2));
    assert!(woe_at_most(0, 0, 0, 0));
    assert!(woe_at_most(0, 1, 1, 2));
    assert!(!woe_at_most(1, 1, 0, 1));
}

#[test]
fn size_limits_floor_the_shares() {
    let l = size_limits(10, 600_000, 1_000_000);
    assert_eq!((l.min_count, l.max_count), (6, 10));
    let l = size_limits(7, 333_333, 500_000);
    assert_eq!((l.min_count, l.max_count), (2, 3));
}

#[test]
fn optimizer_respects_limits_and_maximises_gain() {
    let c = PrefixCounts::new(&vec![1, 1, 1, 1], &vec![1, 1, 1, 1]);
    let mut g = vec![vec![0i64; 4]; 4];
    g[0][1] = 10;
    g[2][3] = 10;
    g[0][0] = 3;
    g[1][3] = 3;
    g[0][3] = 1;
    let lim = SizeLimits { min_count: 0, max_count: 8 };
    let (met, total, splits) = optimize(&c, &g, 2, lim, None);
    assert_eq!((met, total, splits), (true, 20, vec![1]));
    let lim = SizeLimits { min_count: 5, max_count: 8 };
    let (met, total, splits) = optimize(&c, &g, 3, lim, None);
    assert_eq!((met, total, splits), (true, 1, vec![]));
    let lim = SizeLimits { min_count: 9, max_count: 9 };
    let (met, total, splits) = optimize(&c, &g, 3, lim, None);
    assert_eq!((met, total, splits), (false, 1, vec![]));
    let (met, total, splits) = optimize(&c, &g, 4, SizeLimits { min_count: 0, max_count: 8 }, Some(Trend::Increasing));
    assert_eq!(splits.len(), 3);
    assert!(met);
    assert_eq!(total, g[0][0] + g[1][1] + g[2][2] + g[3][3]);
}

#[test]
fn chunked_prebins_merge_on_shared_values() {
    let x = keys(&[2.0, 1.0, 4.0, 2.0, f64::NAN, 3.0, 2.0]);
    let y = vec![1, 0, 0, 1, 1, 0, 0];
    let (bins, missing) = initial_bins_optimized(&x, &y, 3);
    assert_eq!(bins.len(), 2);
    assert_eq!((bins[0].left, bins[0].right), (key(1.0), key(2.0)));
    assert_eq!((bins[0].pos, bins[0].neg, bins[0].count), (2, 2, 4));
    assert_eq!((bins[1].left, bins[1].right), (key(3.0), key(4.0)));
    assert_eq!((bins[1].pos, bins[1].neg, bins[1].count), (0, 2, 2));
    let m = missing.unwrap();
    assert_eq!((m.pos, m.neg, m.count), (1, 0, 1));
    assert_eq!(m.categories, vec!["Missing".to_string()]);
    let (none, no_missing) = initial_bins_optimized(&keys(&[5.0]), &vec![1], 10);
    assert_eq!(none.len(), 1);
    assert!(no_missing.is_none());
}

#[test]
fn optimizer_matches_brute_force_without_trend() {
    let mut seed: u64 = 12345;
    let mut next = move || {
        seed = seed.wrapping_mul(6364136223846793005).wrapping_add(1442695040888963407);
        (seed >> 33) as u64
    };
    for round in 0..40 {
        let n = 2 + (round % 9) as usize;
        let pos: Vec<u64> = (0..n).map(|_| next() % 4).collect();
        let neg: Vec<u64> = (0..n).map(|_| next() % 4).collect();
        let c = PrefixCounts::new(&pos, &neg);
        let mut g = vec![vec![0i64; n]; n];
        for i in 0..n {
            for j in i..n {
                g[i][j] = (next() % 1000) as i64;
            }
        }
        let total = c.total_pos + c.total_neg;
        let lim = SizeLimits { min_count: next() % 3, max_count: total.max(1) - next() % 2 };
        let max_bins = 1 + (next() % 5) as usize;
        let mut best: Option<(usize, i64)> = None;
        for mask in 0u32..(1 << (n - 1)) {
            let mut cuts: Vec<usize> = (0..n - 1).filter(|b| mask & (1 << b) != 0).collect();
            cuts.push(n - 1);
            if cuts.len() > max_bins {
                continue;
            }
            let mut start = 0;
            let mut ok = true;
            let mut sum = 0i64;
            for &end in &cuts {
                let (p, q) = c.get_counts(start, end);
                if p + q < lim.min_count || p + q > lim.max_count {
                    ok = false;
                }
                sum += g[start][end];
                start = end + 1;
            }
            if ok {
                let cand = (cuts.len(), sum);
                if best.map_or(true, |b| cand > b) {
                    best = Some(cand);
                }
            }
        }
        let (met, got, splits) = optimize(&c, &g, max_bins, lim, None);
        match best {
            None => {
                assert!(!met);
                assert!(splits.is_empty());
                assert_eq!(got, g[0][n - 1]);
            }
            Some((k, sum)) => {
                assert!(met);
                assert_eq!(splits.len() + 1, k);
                assert_eq!(got, sum);
            }
        }
    }
}

#[test]
fn fit_does_not_depend_on_row_order() {
    let x: Vec<f64> = (0..300).map(|i| ((i * 17) % 61) as f64 / 3.0).collect();
    let y: Vec<i32> = (0..300).map(|i| (((i * 17) % 61) > 30 || i % 7 == 0) as i32).collect();
    let mut order: Vec<usize> = (0..300).collect();
    order.reverse();
    order.rotate_left(37);
    let x2: Vec<f64> = order.iter().map(|&i| x[i]).collect();
    let y2: Vec<i32> = order.iter().map(|&i| y[i]).collect();
    let fit = |xs: &Vec<f64>, ys: &Vec<i32>| {
        let mut b = NumericalBinning::pynew(4, 50_000, 1_000_000).unwrap();
        let stats = b.prebinning(&keys(xs), ys).unwrap();
        let gains = gains_for(&stats.counts);
        b.fit(&stats, &gains)
            .iter()
            .map(|bin| (bin.bin_id, bin.range, bin.pos, bin.neg, bin.is_missing))
            .collect::<Vec<_>>()
    };
    assert_eq!(fit(&x, &y), fit(&x2, &y2));
}
