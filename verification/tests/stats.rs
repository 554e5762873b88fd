//! Statistics, against the same formulas in machine arithmetic and by hand.
use mc_sim::binary64::Binary64;
use mc_sim::sort;
use mc_sim::stats;

fn of(x: f64) -> Binary64 {
    Binary64::from_bits(x.to_bits())
}

fn to(x: Binary64) -> f64 {
    f64::from_bits(x.to_bits())
}

fn all(xs: &[f64]) -> Vec<Binary64> {
    xs.iter().map(|x| of(*x)).collect()
}

fn same(x: Binary64, y: f64) -> bool {
    if y.is_nan() {
        x.is_nan()
    } else {
        x.to_bits() == y.to_bits()
    }
}

struct Stream(u64);

impl Stream {
    fn price(&mut self) -> f64 {
        self.0 ^= self.0 << 13;
        self.0 ^= self.0 >> 7;
        self.0 ^= self.0 << 17;
        20.0 + (self.0 >> 11) as f64 / (1u64 << 53) as f64 * 200.0
    }
}

fn at(sorted: &[f64], pct: f64) -> f64 {
    sorted[((sorted.len() - 1) as f64 * pct).round() as usize]
}

fn compare(prices: &[f64], initial: f64, confidence: f64) {
    let s = stats::compute_stats(&all(prices), of(initial), of(confidence));
    let n = prices.len() as f64;
    let mean = prices.iter().sum::<f64>() / n;
    let variance = prices.iter().map(|p| (p - mean).powi(2)).sum::<f64>() / n;
    let mut sorted = prices.to_vec();
    sorted.sort_by(|a, b| a.partial_cmp(b).unwrap());
    let mut returns: Vec<f64> = prices.iter().map(|p| (p - initial) / initial).collect();
    returns.sort_by(|a, b| a.partial_cmp(b).unwrap());
    let cut = ((1.0 - confidence) * returns.len() as f64).ceil() as usize;
    let cut = cut.max(1).min(returns.len());
    assert!(same(s.mean, mean));
    assert!(same(s.std_dev, variance.sqrt()));
    assert!(same(s.min, sorted[0]));
    assert!(same(s.max, sorted[sorted.len() - 1]));
    assert!(same(s.median, at(&sorted, 0.50)));
    assert!(same(s.p05, at(&sorted, 0.05)));
    assert!(same(s.p25, at(&sorted, 0.25)));
    assert!(same(s.p75, at(&sorted, 0.75)));
    assert!(same(s.p95, at(&sorted, 0.95)));
    let below = prices.iter().filter(|&&p| p < initial).count();
    assert!(same(s.prob_loss, below as f64 / n));
    assert!(same(s.var, -returns[cut - 1]));
    assert!(same(s.cvar, -(returns[..cut].iter().sum::<f64>() / cut as f64)));
}

#[test]
fn statistics_agree_with_machine_arithmetic() {
    let mut s = Stream(77);
    for len in 1..260usize {
        let prices: Vec<f64> = (0..len).map(|_| s.price()).collect();
        compare(&prices, 100.0, 0.95);
        compare(&prices, 100.0, 0.99);
    }
    for len in [1000usize, 4321] {
        let prices: Vec<f64> = (0..len).map(|_| s.price()).collect();
        compare(&prices, 100.0, 0.95);
    }
}

#[test]
fn statistics_agree_for_unusual_confidence() {
    let prices = [90.0, 120.0, 101.0, 99.0, 100.0];
    for c in [0.0, 1.0, 1.5, -1.0, -1e300, 0.5, f64::NAN, f64::INFINITY, f64::NEG_INFINITY] {
        compare(&prices, 100.0, c);
    }
}

#[test]
fn statistics_agree_for_zeros_and_infinities() {
    compare(&[0.0, -0.0, 0.0, -0.0], 100.0, 0.95);
    compare(&[-0.0, -0.0], 100.0, 0.95);
    compare(&[f64::INFINITY, 1.0, 2.0], 100.0, 0.95);
    compare(&[5e-324, 1e-310, 3.0], 1e-300, 0.5);
    compare(&[f64::MAX, f64::MAX, f64::MAX], 100.0, 0.95);
}

#[test]
fn a_single_nan_price_is_no_obstacle() {
    compare(&[f64::NAN], 100.0, 0.95);
}

#[test]
fn statistics_of_four_prices() {
    let s = stats::compute_stats(&all(&[110.0, 90.0, 120.0, 80.0]), of(100.0), of(0.75));
    assert_eq!(to(s.mean), 100.0);
    assert_eq!(to(s.std_dev), 250.0f64.sqrt());
    assert_eq!(to(s.min), 80.0);
    assert_eq!(to(s.max), 120.0);
    assert_eq!(to(s.p05), 80.0);
    assert_eq!(to(s.p25), 90.0);
    assert_eq!(to(s.median), 110.0);
    assert_eq!(to(s.p75), 110.0);
    assert_eq!(to(s.p95), 120.0);
    assert_eq!(to(s.prob_loss), 0.5);
    assert_eq!(to(s.var), 0.2);
    assert_eq!(to(s.cvar), 0.2);
}

#[test]
fn percentiles_are_in_order_and_occur() {
    let mut s = Stream(5);
    let prices: Vec<f64> = (0..137).map(|_| s.price()).collect();
    let t = stats::compute_stats(&all(&prices), of(100.0), of(0.9));
    let row = [t.min, t.p05, t.p25, t.median, t.p75, t.p95, t.max].map(to);
    for k in 1..row.len() {
        assert!(row[k - 1] <= row[k]);
    }
    for x in row {
        assert!(prices.contains(&x));
    }
    assert!(to(t.prob_loss) >= 0.0 && to(t.prob_loss) <= 1.0);
}

#[test]
fn confidence_raises_value_at_risk() {
    let mut s = Stream(6);
    let prices = all(&(0..200).map(|_| s.price()).collect::<Vec<f64>>());
    let mut last = f64::NEG_INFINITY;
    for k in 0..100 {
        let t = stats::compute_stats(&prices, of(100.0), of(k as f64 / 100.0));
        assert!(last <= to(t.var));
        last = to(t.var);
    }
}

#[test]
fn the_tail_is_cut_at_the_value_at_risk() {
    let prices = all(&[70.0, 80.0, 90.0, 100.0, 110.0, 120.0, 130.0, 140.0]);
    let t = stats::compute_stats(&prices, of(100.0), of(0.75));
    assert_eq!(to(t.var), 0.2);
    assert_eq!(to(t.cvar), 0.25);
}

#[test]
fn percentile_rounds_half_away_from_zero() {
    let sorted = all(&[0.0, 1.0, 2.0, 3.0, 4.0, 5.0]);
    assert_eq!(to(stats::percentile(&sorted, of(0.5))), 3.0);
    assert_eq!(to(stats::percentile(&sorted, of(0.3))), 2.0);
    assert_eq!(to(stats::percentile(&sorted, of(0.0))), 0.0);
    assert_eq!(to(stats::percentile(&sorted, of(1.0))), 5.0);
    assert_eq!(to(stats::percentile(&sorted, of(-7.0))), 0.0);
}

#[test]
fn simple_returns_are_relative_to_the_initial_price() {
    let r = stats::simple_returns(&all(&[110.0, 50.0]), of(100.0));
    assert_eq!(r.iter().map(|x| to(*x)).collect::<Vec<f64>>(), vec![0.1, -0.5]);
}

#[test]
fn sorting_is_stable() {
    let s = all(&[2.0, 0.0, -1.0, -0.0, 0.0, 2.0, -0.0, f64::NEG_INFINITY]);
    let r: Vec<u64> = sort::sort(&s).iter().map(|x| x.to_bits()).collect();
    let expected: Vec<u64> = [f64::NEG_INFINITY, -1.0, 0.0, -0.0, 0.0, -0.0, 2.0, 2.0]
        .iter()
        .map(|x: &f64| x.to_bits())
        .collect();
    assert_eq!(r, expected);
    let again: Vec<u64> = sort::sort(&sort::sort(&s)).iter().map(|x| x.to_bits()).collect();
    assert_eq!(again, expected);
}

#[test]
fn nan_cannot_be_compared() {
    assert!(sort::is_comparable(&[]));
    assert!(sort::is_comparable(&all(&[f64::NAN])));
    assert!(sort::is_comparable(&all(&[1.0, f64::INFINITY])));
    assert!(!sort::is_comparable(&all(&[1.0, f64::NAN])));
    assert!(!sort::is_comparable(&all(&[f64::NAN, 1.0, 2.0])));
}
