//! Laws of scale, order, symmetry and parity, on given values.
use mc_sim::args::{Args, OptionType};
use mc_sim::binary64::Binary64;
use mc_sim::pricing::{self, EuropeanOption, OptionPricingResult};
use mc_sim::{path, stats};

fn of(x: f64) -> Binary64 {
    Binary64::from_bits(x.to_bits())
}

fn to(x: Binary64) -> f64 {
    f64::from_bits(x.to_bits())
}

fn all(xs: &[f64]) -> Vec<Binary64> {
    xs.iter().map(|x| of(*x)).collect()
}

fn exp(x: Binary64) -> Binary64 {
    of(to(x).exp())
}

fn gauss(x: Binary64) -> Binary64 {
    exp(pricing::erf_exponent(pricing::norm_argument(x)))
}

fn cdf(x: f64) -> f64 {
    to(pricing::norm_cdf(of(x), gauss(of(x))))
}

fn option(s0: f64, k: f64, r: f64, sigma: f64, t: f64, option_type: OptionType) -> EuropeanOption {
    EuropeanOption { s0: of(s0), k: of(k), r: of(r), sigma: of(sigma), t: of(t), option_type }
}

fn price(o: &EuropeanOption, prices: &[f64]) -> OptionPricingResult {
    let ln_moneyness = of(to(o.moneyness()).ln());
    o.price_option(
        &all(prices),
        ln_moneyness,
        exp(o.discount_exponent()),
        gauss(o.d1(ln_moneyness)),
        gauss(o.d2(ln_moneyness)),
    )
}

fn args(initial_price: f64, days: usize) -> Args {
    Args {
        initial_price: of(initial_price),
        drift: of(0.08),
        volatility: of(0.25),
        days,
        simulations: 10,
        seed: None,
        confidence: of(0.95),
        output: None,
        paths_output: None,
        sample_paths: 1,
        strike: None,
        risk_free_rate: of(0.04),
        option_type: OptionType::Call,
    }
}

fn sample(len: usize) -> Vec<f64> {
    let mut s: u64 = 77;
    (0..len)
        .map(|_| {
            s ^= s << 13;
            s ^= s >> 7;
            s ^= s << 17;
            40.0 + (s >> 11) as f64 / (1u64 << 53) as f64 * 120.0
        })
        .collect()
}

#[test]
fn twice_the_initial_price_doubles_every_price() {
    let growth: Vec<Binary64> = (0..40).map(|i| of(0.9 + (i * 7 % 23) as f64 / 100.0)).collect();
    for initial in [1.0, 100.0, 123.456, 1e-290, 1e290] {
        let one = path::simulate_one_path(&args(initial, 40), &growth, true);
        let two = path::simulate_one_path(&args(2.0 * initial, 40), &growth, true);
        assert_eq!(to(two.final_price), 2.0 * to(one.final_price));
        let (p, q) = (one.path.unwrap(), two.path.unwrap());
        assert_eq!(p.len(), 41);
        for (x, y) in p.iter().zip(&q) {
            assert_eq!(to(*y), 2.0 * to(*x));
        }
    }
}

#[test]
fn a_product_rounded_up_to_the_smallest_normal_number_need_not_double() {
    let smallest = f64::MIN_POSITIVE;
    let factor = 1.0 - f64::EPSILON / 2.0;
    let one = path::simulate_one_path(&args(smallest, 1), &[of(factor)], false);
    let two = path::simulate_one_path(&args(2.0 * smallest, 1), &[of(factor)], false);
    assert_eq!(to(one.final_price), smallest);
    assert!(to(two.final_price) < 2.0 * smallest);
}

#[test]
fn twice_the_stock_and_the_strike_double_the_closed_form() {
    for kind in [OptionType::Call, OptionType::Put] {
        for k in [50.0, 90.0, 100.0, 104.5, 250.0] {
            for t in [0.1, 1.0, 3.7] {
                let one = option(100.0, k, 0.04, 0.25, t, kind);
                let two = option(200.0, 2.0 * k, 0.04, 0.25, t, kind);
                assert_eq!(two.moneyness(), one.moneyness());
                assert_eq!(
                    to(price(&two, &[100.0]).black_scholes_price),
                    2.0 * to(price(&one, &[100.0]).black_scholes_price)
                );
            }
        }
    }
}

#[test]
fn the_order_of_the_prices_makes_no_difference() {
    let prices = sample(301);
    let mut backwards = prices.clone();
    backwards.reverse();
    let mut mixed = prices.clone();
    for i in 0..mixed.len() {
        mixed.swap(i, (i * 97 + 13) % 301);
    }
    let s = stats::compute_stats(&all(&prices), of(100.0), of(0.95));
    for other in [backwards, mixed] {
        let t = stats::compute_stats(&all(&other), of(100.0), of(0.95));
        assert_eq!(s.min, t.min);
        assert_eq!(s.max, t.max);
        assert_eq!(s.median, t.median);
        assert_eq!(s.p05, t.p05);
        assert_eq!(s.p25, t.p25);
        assert_eq!(s.p75, t.p75);
        assert_eq!(s.p95, t.p95);
        assert_eq!(s.prob_loss, t.prob_loss);
        assert_eq!(s.var, t.var);
        assert_eq!(s.cvar, t.cvar);
        assert!((to(s.mean) - to(t.mean)).abs() <= 1e-11 * to(s.mean));
        assert!((to(s.std_dev) - to(t.std_dev)).abs() <= 1e-11 * to(s.std_dev));
    }
}

#[test]
fn zeros_of_either_sign_may_trade_places() {
    let s = stats::compute_stats(&all(&[0.0, -0.0, 1.0]), of(1.0), of(0.95));
    let t = stats::compute_stats(&all(&[-0.0, 0.0, 1.0]), of(1.0), of(0.95));
    assert_eq!(to(s.min), to(t.min));
    assert_ne!(s.min, t.min);
}

#[test]
fn means_and_deviations_are_close_to_the_exact_ones() {
    // whole numbers, so that the exact sums are at hand
    let prices: Vec<f64> = (0..1000).map(|i| (i * 37 % 1000) as f64).collect();
    let s = stats::compute_stats(&all(&prices), of(100.0), of(0.95));
    assert_eq!(to(s.mean), 499.5);
    let variance = (1000.0 * 1000.0 - 1.0) / 12.0;
    assert!((to(s.std_dev) * to(s.std_dev) - variance).abs() <= 2017.0 * f64::EPSILON * variance);
}

#[test]
fn the_two_tails_make_up_the_whole() {
    for k in 1..400 {
        let x = k as f64 / 37.0;
        assert!((cdf(x) + cdf(-x) - 1.0).abs() <= 1e-15, "{x}");
    }
    for x in [5e-324, 1e-300, 1e-17, 40.0, 1e300, f64::INFINITY] {
        assert!((cdf(x) + cdf(-x) - 1.0).abs() <= 1e-15, "{x}");
    }
    let at_zero = cdf(0.0) + cdf(-0.0) - 1.0;
    assert!(at_zero.abs() > 1e-15 && at_zero.abs() <= 2e-9);
}

#[test]
fn the_distribution_function_is_a_probability() {
    for k in -2000..=2000 {
        let y = cdf(k as f64 / 101.0);
        assert!((0.0..=1.0).contains(&y));
    }
    assert_eq!(cdf(f64::NEG_INFINITY), 0.0);
    assert_eq!(cdf(f64::INFINITY), 1.0);
}

#[test]
fn the_error_function_stays_within_one() {
    for k in -2000..=2000 {
        let x = of(k as f64 / 301.0);
        assert!(to(pricing::erf(x, exp(pricing::erf_exponent(x)))).abs() <= 1.0);
    }
}

#[test]
fn closed_forms_of_a_call_and_a_put_are_at_parity() {
    for s0 in [1e-300, 0.5, 100.0, 1e300] {
        for ratio in [0.3, 0.9, 1.0, 1.04, 3.0] {
            for (r, sigma, t) in [(0.04, 0.25, 1.0), (-0.01, 0.9, 3.7), (0.0, 0.05, 0.1)] {
                let k = s0 * ratio;
                let call = price(&option(s0, k, r, sigma, t, OptionType::Call), &[s0]);
                let put = price(&option(s0, k, r, sigma, t, OptionType::Put), &[s0]);
                let paid = k * (-r * t).exp();
                let gap = to(call.black_scholes_price) - to(put.black_scholes_price);
                assert!((gap - (s0 - paid)).abs() <= 1e-8 * (s0 + paid));
            }
        }
    }
}

#[test]
fn simulated_prices_of_a_call_and_a_put_are_at_parity() {
    for len in [1usize, 2, 10, 1000] {
        let prices = sample(len);
        let n = len as f64;
        let mean = prices.iter().sum::<f64>() / n;
        let size = prices.iter().map(|x| x.abs()).sum::<f64>() / n;
        for k in [1.0, 80.0, 100.0, 160.0] {
            let call = price(&option(100.0, k, 0.04, 0.25, 1.0, OptionType::Call), &prices);
            let put = price(&option(100.0, k, 0.04, 0.25, 1.0, OptionType::Put), &prices);
            let factor = (-0.04f64).exp();
            let gap = to(call.mc_price) - to(put.mc_price);
            assert!((gap - factor * (mean - k)).abs() <= 1e-9 * factor * (size + k));
        }
    }
}

#[test]
fn the_mean_lies_between_the_extremes() {
    for len in [1usize, 2, 9, 500] {
        let prices = sample(len);
        let s = stats::compute_stats(&all(&prices), of(100.0), of(0.95));
        let slack = (len + 2) as f64 * f64::EPSILON * 160.0;
        assert!(to(s.min) - slack <= to(s.mean) && to(s.mean) <= to(s.max) + slack);
    }
}

#[test]
fn the_shortfall_is_no_less_than_the_value_at_risk() {
    let prices = sample(400);
    for confidence in [0.0, 0.5, 0.9, 0.95, 0.999] {
        let s = stats::compute_stats(&all(&prices), of(100.0), of(confidence));
        assert!(to(s.cvar) >= to(s.var) - 402.0 * f64::EPSILON);
    }
}

#[test]
fn payoffs_follow_the_stock() {
    let prices = [f64::NEG_INFINITY, -1.0, 0.0, 5e-324, 99.9, 100.0, 100.1, 1e300, f64::INFINITY];
    let call = option(100.0, 100.0, 0.04, 0.25, 1.0, OptionType::Call);
    let put = option(100.0, 100.0, 0.04, 0.25, 1.0, OptionType::Put);
    for w in prices.windows(2) {
        assert!(to(call.payoff(of(w[0]))) <= to(call.payoff(of(w[1]))));
        assert!(to(put.payoff(of(w[0]))) >= to(put.payoff(of(w[1]))));
    }
}

#[test]
fn closed_forms_stay_below_what_they_are_on() {
    for k in [1e-3, 50.0, 100.0, 250.0, 1e6] {
        for sigma in [0.01, 0.25, 5.0] {
            let call = price(&option(100.0, k, 0.04, sigma, 1.0, OptionType::Call), &[100.0]);
            let put = price(&option(100.0, k, 0.04, sigma, 1.0, OptionType::Put), &[100.0]);
            assert!(to(call.black_scholes_price) <= 100.0);
            assert!(to(put.black_scholes_price) <= k * (-0.04f64).exp());
        }
    }
}

#[test]
fn exponentials_are_between_zero_and_one() {
    for x in [0.0, -0.0, 5e-324, 0.3, -1.0, 7.5, -60.0, f64::INFINITY] {
        let g = to(gauss(of(x)));
        assert!((0.0..=1.0).contains(&g));
        assert_eq!(g, to(gauss(of(-x))));
    }
    assert_eq!(to(gauss(of(0.0))), 1.0);
}

#[test]
fn confidence_raises_the_shortfall() {
    let prices = sample(400);
    let levels = [0.0, 0.25, 0.5, 0.9, 0.95, 0.99, 0.999, 1.0];
    for w in levels.windows(2) {
        let s = stats::compute_stats(&all(&prices), of(100.0), of(w[0]));
        let t = stats::compute_stats(&all(&prices), of(100.0), of(w[1]));
        assert!(to(t.cvar) >= to(s.cvar) - 804.0 * f64::EPSILON);
        assert!(to(t.var) >= to(s.var));
    }
}

#[test]
fn simulated_prices_follow_the_strike() {
    let prices = sample(250);
    let strikes = [0.0, 1e-300, 40.0, 99.9, 100.0, 100.1, 159.0, 1e300];
    for w in strikes.windows(2) {
        for t in [0.0, 1.0, 3.7] {
            let call = |k| price(&option(100.0, k, 0.04, 0.25, t, OptionType::Call), &prices);
            let put = |k| price(&option(100.0, k, 0.04, 0.25, t, OptionType::Put), &prices);
            assert!(to(call(w[1]).mc_price) <= to(call(w[0]).mc_price));
            assert!(to(put(w[0]).mc_price) <= to(put(w[1]).mc_price));
        }
    }
    let at = |k| to(option(1.0, k, 0.0, 0.2, 1.0, OptionType::Call).payoff(of(100.0)));
    assert_eq!((at(90.0), at(95.0), at(105.0)), (10.0, 5.0, 0.0));
}

#[test]
fn the_error_function_has_the_sign_of_its_argument() {
    let erf = |x: f64, g: f64| to(pricing::erf(of(x), of(g)));
    for x in [0.0, -0.0, 5e-324, 1e-17, 1e-9, 0.3, 2.0, 40.0, f64::INFINITY] {
        for g in [0.0, 0.5, 1.0] {
            assert!(erf(x, g) > 0.0, "{x} {g}");
            if x != 0.0 {
                assert!(erf(-x, g) < 0.0, "{x} {g}");
            }
        }
    }
    assert!((erf(0.0, 1.0) - 1e-9).abs() < 1e-11);
}

#[test]
fn the_distribution_function_is_one_half_at_zero() {
    for k in 1..400 {
        let x = k as f64 / 37.0;
        assert!(cdf(x) >= 0.5 && cdf(-x) <= 0.5);
    }
    assert!(cdf(0.0) >= 0.5 && cdf(-0.0) >= 0.5);
    assert!(cdf(5e-324) >= 0.5 && cdf(-5e-324) <= 0.5);
}
