//! Laws of the library, on given values.
use mc_sim::args::{Args, OptionType};
use mc_sim::binary64::Binary64;
use mc_sim::pricing::EuropeanOption;
use mc_sim::{csv, decimal, path, seeds, sort, stats};

fn of(x: f64) -> Binary64 {
    Binary64::from_bits(x.to_bits())
}

fn to(x: Binary64) -> f64 {
    f64::from_bits(x.to_bits())
}

const NUMBERS: [f64; 12] = [
    f64::NEG_INFINITY,
    -1e300,
    -3.5,
    -1e-310,
    -0.0,
    0.0,
    5e-324,
    0.1,
    1.0,
    1.0000000000000002,
    1e300,
    f64::INFINITY,
];

#[test]
fn sums_commute() {
    for a in NUMBERS {
        for b in NUMBERS {
            assert_eq!(of(a).add(of(b)), of(b).add(of(a)));
        }
    }
}

#[test]
fn sums_and_products_keep_order() {
    for x in NUMBERS {
        for w in NUMBERS.windows(2) {
            let (a, b) = (of(x).add(of(w[0])), of(x).add(of(w[1])));
            assert!(a.is_nan() || b.is_nan() || !b.lt(a));
            if x > 0.0 && x.is_finite() {
                assert!(!of(w[1]).mul(of(x)).lt(of(w[0]).mul(of(x))));
            }
            assert!(of(w[0]).ceil_to_usize() <= of(w[1]).ceil_to_usize());
        }
    }
}

#[test]
fn one_and_zero_are_neutral() {
    for x in NUMBERS {
        assert_eq!(Binary64::from_u64(1).mul(of(x)), of(x));
        assert_eq!(Binary64::from_u64(1).neg().mul(of(x)), of(-x));
        assert_eq!(to(of(x).add(of(0.0))), x);
        assert_eq!(of(-x).div(of(3.0)), of(x).div(of(3.0)).neg());
    }
}

#[test]
fn ties_go_to_even() {
    let half = 1.1102230246251565e-16;
    assert_eq!(to(of(1.0).add(of(half))), 1.0);
    assert_eq!(to(of(1.0000000000000002).add(of(half))), 1.0000000000000004);
    assert_eq!(to(of(1.0).add(of(1.2e-16))), 1.0000000000000002);
}

#[test]
fn values_are_ordered_by_rank() {
    let mut mixed: Vec<Binary64> = NUMBERS.iter().rev().map(|x| of(*x)).collect();
    mixed.swap(2, 9);
    let sorted: Vec<f64> = sort::sort(&mixed).iter().map(|x| to(*x)).collect();
    assert_eq!(sorted, NUMBERS.to_vec());
}

#[test]
fn seeds_of_a_run_differ() {
    let mut seen: Vec<u64> = (0..1000).map(|i| seeds::path_seed(u64::MAX - 500, i)).collect();
    seen.sort();
    seen.dedup();
    assert_eq!(seen.len(), 1000);
}

fn args(days: usize) -> Args {
    Args {
        initial_price: of(100.0),
        drift: of(0.08),
        volatility: of(0.25),
        days,
        simulations: 4,
        seed: None,
        confidence: of(0.95),
        output: None,
        paths_output: Some("paths.csv".to_string()),
        sample_paths: 2,
        strike: None,
        risk_free_rate: of(0.04),
        option_type: OptionType::Call,
    }
}

#[test]
fn later_days_leave_earlier_ones_alone() {
    let growth: Vec<Binary64> = [1.01, 0.98, 1.03, 0.97].iter().map(|x| of(*x)).collect();
    let long = path::simulate_one_path(&args(4), &growth, true).path.unwrap();
    let short = path::simulate_one_path(&args(2), &growth[..2], true).path.unwrap();
    assert_eq!(long.len(), 5);
    assert_eq!(long[..3], short[..]);
    for day in 0..4 {
        assert_eq!(long[day + 1], long[day].mul(growth[day]));
    }
}

#[test]
fn the_sample_is_the_first_paths() {
    let a = args(1);
    let outcomes: Vec<path::SimOutcome> = a
        .record_flags()
        .iter()
        .enumerate()
        .map(|(i, flag)| path::simulate_one_path(&a, &[Binary64::from_u64(i as u64)], *flag))
        .collect();
    let sample = path::sampled_paths(&outcomes, a.sample_paths);
    assert_eq!(sample.len(), 2);
    for i in 0..2 {
        assert_eq!(Some(&sample[i]), outcomes[i].path.as_ref());
    }
    let text = csv::paths_csv(&sample);
    assert_eq!(text.matches('\n').count(), 3);
    assert_eq!(text.matches(',').count(), 6);
}

#[test]
fn of_a_call_and_a_put_one_pays() {
    for s in [50.0, 99.99, 100.0, 100.01, 1e9] {
        let option = |option_type: OptionType| EuropeanOption {
            s0: of(100.0),
            k: of(100.0),
            r: of(0.04),
            sigma: of(0.25),
            t: of(1.0),
            option_type,
        };
        let (c, p) = (option(OptionType::Call).payoff(of(s)), option(OptionType::Put).payoff(of(s)));
        assert!(to(c) >= 0.0 && to(p) >= 0.0);
        assert!(to(c) == 0.0 || to(p) == 0.0);
    }
}

#[test]
fn returns_on_a_proper_price_can_be_compared() {
    let prices: Vec<Binary64> = NUMBERS.iter().map(|x| of(*x)).collect();
    assert!(sort::is_comparable(&stats::simple_returns(&prices, of(100.0))));
    assert!(sort::is_comparable(&stats::simple_returns(&prices, of(-5e-324))));
    assert!(!sort::is_comparable(&stats::simple_returns(&prices, of(0.0))));
    assert!(!sort::is_comparable(&stats::simple_returns(&prices, of(f64::INFINITY))));
}

#[test]
fn digits_read_back() {
    for n in [0u64, 7, 10, 999, 1000, 123456789, 9007199254740991] {
        let mut text = String::new();
        decimal::push_fixed(&mut text, Binary64::from_u64(n), 3);
        let (whole, fraction) = text.split_once('.').unwrap();
        assert_eq!(whole.parse::<u64>().unwrap(), n);
        assert_eq!(fraction, "000");
    }
}

#[test]
fn deviations_have_no_minus_sign() {
    for prices in [[1.0, 1.0], [0.0, -0.0], [-3.0, 5.0]] {
        let encoded: Vec<Binary64> = prices.iter().map(|x| of(*x)).collect();
        let s = stats::compute_stats(&encoded, of(100.0), of(0.95));
        assert!(to(s.std_dev).is_sign_positive());
    }
}
