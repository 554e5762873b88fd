//! Option pricing, against the same formulas in machine arithmetic.
use mc_sim::args::OptionType;
use mc_sim::binary64::Binary64;
use mc_sim::pricing::{self, EuropeanOption};

fn of(x: f64) -> Binary64 {
    Binary64::from_bits(x.to_bits())
}

fn to(x: Binary64) -> f64 {
    f64::from_bits(x.to_bits())
}

fn exp(x: Binary64) -> Binary64 {
    of(to(x).exp())
}

fn erf(x: f64) -> f64 {
    to(pricing::erf(of(x), exp(pricing::erf_exponent(of(x)))))
}

fn cdf(x: f64) -> f64 {
    to(pricing::norm_cdf(of(x), exp(pricing::erf_exponent(pricing::norm_argument(of(x))))))
}

fn machine_erf(x: f64) -> f64 {
    let sign = if x < 0.0 { -1.0 } else { 1.0 };
    let x = x.abs();
    let t = 1.0 / (1.0 + 0.3275911 * x);
    let poly = ((((1.061405429 * t + -1.453152027) * t) + 1.421413741) * t + -0.284496736) * t;
    let y = 1.0 - (poly + 0.254829592) * t * (-x * x).exp();
    sign * y
}

fn machine_cdf(x: f64) -> f64 {
    0.5 * (1.0 + machine_erf(x / std::f64::consts::SQRT_2))
}

fn machine_black_scholes(o: &EuropeanOption) -> f64 {
    let (s0, k, r, sigma, t) = (to(o.s0), to(o.k), to(o.r), to(o.sigma), to(o.t));
    let d1 = ((s0 / k).ln() + (r + 0.5 * sigma * sigma) * t) / (sigma * t.sqrt());
    let d2 = d1 - sigma * t.sqrt();
    match o.option_type {
        OptionType::Call => s0 * machine_cdf(d1) - k * (-r * t).exp() * machine_cdf(d2),
        OptionType::Put => k * (-r * t).exp() * machine_cdf(-d2) - s0 * machine_cdf(-d1),
    }
}

fn black_scholes(o: &EuropeanOption) -> f64 {
    let ln_moneyness = of(to(o.moneyness()).ln());
    let g1 = exp(pricing::erf_exponent(pricing::norm_argument(o.d1(ln_moneyness))));
    let g2 = exp(pricing::erf_exponent(pricing::norm_argument(o.d2(ln_moneyness))));
    to(o.black_scholes_price(ln_moneyness, exp(o.discount_exponent()), g1, g2))
}

fn option(s0: f64, k: f64, r: f64, sigma: f64, t: f64, option_type: OptionType) -> EuropeanOption {
    EuropeanOption { s0: of(s0), k: of(k), r: of(r), sigma: of(sigma), t: of(t), option_type }
}

#[test]
fn literals_are_the_nearest_numbers() {
    let pairs: [(u64, u64, f64); 9] = [
        (254829592, 1000000000, 0.254829592),
        (284496736, 1000000000, 0.284496736),
        (1421413741, 1000000000, 1.421413741),
        (1453152027, 1000000000, 1.453152027),
        (1061405429, 1000000000, 1.061405429),
        (3275911, 10000000, 0.3275911),
        (196, 100, 1.96),
        (5, 100, 0.05),
        (95, 100, 0.95),
    ];
    for (n, d, x) in pairs {
        assert_eq!(to(Binary64::ratio(n, d)), x);
    }
    assert_eq!(to(Binary64::from_u64(2).sqrt()), std::f64::consts::SQRT_2);
}

#[test]
fn error_function_agrees_with_machine_arithmetic() {
    for k in -400..=400 {
        let x = k as f64 / 77.0;
        assert_eq!(erf(x).to_bits(), machine_erf(x).to_bits(), "{x}");
        assert_eq!(cdf(x).to_bits(), machine_cdf(x).to_bits(), "{x}");
    }
}

#[test]
fn error_function_is_within_its_error() {
    for (x, y) in [
        (0.0, 0.0),
        (0.5, 0.5204998778130465),
        (1.0, 0.8427007929497149),
        (2.0, 0.9953222650189527),
        (3.0, 0.9999779095030014),
    ] {
        assert!((erf(x) - y).abs() <= 1.5e-7, "{x}");
    }
    assert!((cdf(1.96) - 0.9750021048517795).abs() <= 1.5e-7);
}

#[test]
fn error_function_is_odd() {
    for k in 1..200 {
        let x = k as f64 / 31.0;
        assert_eq!(erf(-x), -erf(x));
        assert_eq!(
            pricing::erf_exponent(pricing::norm_argument(of(-x))),
            pricing::erf_exponent(pricing::norm_argument(of(x)))
        );
    }
}

#[test]
fn closed_form_agrees_with_machine_arithmetic() {
    for kind in [OptionType::Call, OptionType::Put] {
        for k in [50.0, 90.0, 100.0, 104.5, 250.0] {
            for sigma in [0.05, 0.25, 0.9] {
                for t in [0.1, 1.0, 3.7] {
                    let o = option(100.0, k, 0.04, sigma, t, kind);
                    assert_eq!(black_scholes(&o).to_bits(), machine_black_scholes(&o).to_bits());
                }
            }
        }
    }
}

#[test]
fn closed_form_of_a_known_option() {
    // S0 = K = 100, r = 5%, sigma = 20%, one year
    let call = black_scholes(&option(100.0, 100.0, 0.05, 0.2, 1.0, OptionType::Call));
    let put = black_scholes(&option(100.0, 100.0, 0.05, 0.2, 1.0, OptionType::Put));
    assert!((call - 10.450583572185565).abs() < 1e-4);
    assert!((put - 5.573526022256971).abs() < 1e-4);
}

#[test]
fn payoffs() {
    let call = option(100.0, 100.0, 0.04, 0.25, 1.0, OptionType::Call);
    let put = option(100.0, 100.0, 0.04, 0.25, 1.0, OptionType::Put);
    assert_eq!(to(call.payoff(of(130.5))), 30.5);
    assert_eq!(to(call.payoff(of(99.0))), 0.0);
    assert_eq!(to(put.payoff(of(130.5))), 0.0);
    assert_eq!(to(put.payoff(of(99.0))), 1.0);
    assert_eq!(to(call.payoff(of(100.0))).to_bits(), 0);
    assert_eq!(to(call.payoff(of(f64::NAN))).to_bits(), 0);
    let at: Vec<f64> = call
        .payoffs(&[of(90.0), of(110.0), of(100.25)])
        .iter()
        .map(|x| to(*x))
        .collect();
    assert_eq!(at, vec![0.0, 10.0, 0.25]);
}

fn agree(o: &EuropeanOption, prices: &[f64]) {
    let encoded: Vec<Binary64> = prices.iter().map(|x| of(*x)).collect();
    let discount = exp(o.discount_exponent());
    let ln_moneyness = of(to(o.moneyness()).ln());
    let g1 = exp(pricing::erf_exponent(pricing::norm_argument(o.d1(ln_moneyness))));
    let g2 = exp(pricing::erf_exponent(pricing::norm_argument(o.d2(ln_moneyness))));
    let r = o.price_option(&encoded, ln_moneyness, discount, g1, g2);
    let k = to(o.k);
    let payoffs: Vec<f64> = prices
        .iter()
        .map(|&s| match o.option_type {
            OptionType::Call => (s - k).max(0.0),
            OptionType::Put => (k - s).max(0.0),
        })
        .collect();
    let n = payoffs.len() as f64;
    let mean = payoffs.iter().sum::<f64>() / n;
    let variance = payoffs.iter().map(|p| (p - mean).powi(2)).sum::<f64>() / n;
    let factor = (-to(o.r) * to(o.t)).exp();
    let price = factor * mean;
    let error = factor * variance.sqrt() / n.sqrt();
    assert_eq!(to(r.mc_price).to_bits(), price.to_bits());
    assert_eq!(to(r.std_error).to_bits(), error.to_bits());
    assert_eq!(to(r.ci_low).to_bits(), (price - 1.96 * error).to_bits());
    assert_eq!(to(r.ci_high).to_bits(), (price + 1.96 * error).to_bits());
    assert_eq!(to(r.black_scholes_price).to_bits(), machine_black_scholes(o).to_bits());
    assert!(to(r.ci_low) <= to(r.mc_price) && to(r.mc_price) <= to(r.ci_high));
}

#[test]
fn simulated_price_agrees_with_machine_arithmetic() {
    let mut s: u64 = 31;
    for len in 1..120usize {
        let prices: Vec<f64> = (0..len)
            .map(|_| {
                s ^= s << 13;
                s ^= s >> 7;
                s ^= s << 17;
                40.0 + (s >> 11) as f64 / (1u64 << 53) as f64 * 120.0
            })
            .collect();
        agree(&option(100.0, 104.5, 0.04, 0.25, 1.0, OptionType::Call), &prices);
        agree(&option(100.0, 95.25, 0.04, 0.25, 0.5, OptionType::Put), &prices);
    }
}

#[test]
fn an_option_over_no_prices_has_no_price() {
    let o = option(100.0, 100.0, 0.04, 0.25, 1.0, OptionType::Call);
    let r = o.price_option(&[], of(0.0), of(1.0), of(0.9), of(0.95));
    assert!(r.mc_price.is_nan());
    assert!(r.std_error.is_nan());
    assert_eq!(
        r.black_scholes_price,
        o.black_scholes_price(of(0.0), of(1.0), of(0.9), of(0.95))
    );
}
