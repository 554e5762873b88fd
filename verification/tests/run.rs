//! Arguments, seeds, paths and files.
use mc_sim::args::{Args, ArgsError, OptionType};
use mc_sim::binary64::Binary64;
use mc_sim::path::{PathSim, SimOutcome, StepTerms};
use mc_sim::{csv, path, pricing, report, seeds, stats};
use rand::rngs::StdRng;
use rand::{RngCore, SeedableRng};

fn of(x: f64) -> Binary64 {
    Binary64::from_bits(x.to_bits())
}

fn to(x: Binary64) -> f64 {
    f64::from_bits(x.to_bits())
}

fn all(xs: &[f64]) -> Vec<Binary64> {
    xs.iter().map(|x| of(*x)).collect()
}

fn args() -> Args {
    Args {
        initial_price: of(100.0),
        drift: of(0.08),
        volatility: of(0.25),
        days: 252,
        simulations: 1000,
        seed: Some(42),
        confidence: of(0.95),
        output: None,
        paths_output: None,
        sample_paths: 100,
        strike: None,
        risk_free_rate: of(0.04),
        option_type: OptionType::Call,
    }
}

#[test]
fn ordinary_arguments_are_accepted() {
    assert_eq!(args().check(), Ok(()));
    let mut a = args();
    a.sample_paths = a.simulations;
    assert_eq!(a.check(), Ok(()));
    a.sample_paths = 0;
    assert_eq!(a.check(), Ok(()));
}

#[test]
fn no_simulations_are_refused() {
    let mut a = args();
    a.simulations = 0;
    assert_eq!(a.check(), Err(ArgsError::NoSimulations));
    assert_eq!(ArgsError::NoSimulations.message(), "error: --simulations must be > 0");
}

#[test]
fn more_sample_paths_than_simulations_are_refused() {
    let mut a = args();
    a.sample_paths = 1001;
    assert_eq!(a.check(), Err(ArgsError::TooManySamplePaths));
    assert_eq!(
        ArgsError::TooManySamplePaths.message(),
        "error: --sample-paths cannot exceed --simulations"
    );
}

#[test]
fn a_strike_switches_to_the_risk_free_rate() {
    let mut a = args();
    assert_eq!(to(a.measure_drift()), 0.08);
    assert!(pricing::option_of(&a).is_none());
    a.strike = Some(of(105.0));
    assert_eq!(to(a.measure_drift()), 0.04);
    let o = pricing::option_of(&a).unwrap();
    assert_eq!(to(o.k), 105.0);
    assert_eq!(to(o.s0), 100.0);
    assert_eq!(to(o.r), 0.04);
    assert_eq!(to(o.sigma), 0.25);
    assert_eq!(to(o.t), 1.0);
    assert_eq!(o.option_type, OptionType::Call);
}

#[test]
fn the_first_paths_are_recorded() {
    let mut a = args();
    a.simulations = 5;
    a.sample_paths = 2;
    assert_eq!(a.record_flags(), vec![false; 5]);
    a.paths_output = Some("paths.csv".to_string());
    assert_eq!(a.record_flags(), vec![true, true, false, false, false]);
}

#[test]
fn a_given_seed_is_used() {
    assert_eq!(seeds::base_seed(Some(7)), 7);
    assert_eq!(seeds::seed_or(Some(7), 9), 7);
    assert_eq!(seeds::seed_or(None, 9), 9);
}

#[test]
fn drawn_seeds_differ() {
    assert_ne!(seeds::base_seed(None), seeds::base_seed(None));
}

#[test]
fn path_seeds_count_up_and_wrap() {
    assert_eq!(seeds::path_seed(42, 0), 42);
    assert_eq!(seeds::path_seed(42, 8), 50);
    assert_eq!(seeds::path_seed(u64::MAX, 1), 0);
    assert_eq!(seeds::path_seed(u64::MAX, u64::MAX), u64::MAX - 1);
}

#[test]
fn each_path_has_the_generator_of_its_seed() {
    for i in 0..20u64 {
        let mut a = seeds::path_rng(u64::MAX - 3, i);
        let mut b = StdRng::seed_from_u64((u64::MAX - 3).wrapping_add(i));
        let mut c = seeds::path_rng(u64::MAX - 3, i + 1);
        let first = a.next_u64();
        assert_eq!(first, b.next_u64());
        assert_ne!(first, c.next_u64());
    }
}

#[test]
fn the_time_step_is_a_trading_day() {
    assert_eq!(to(path::time_step()), 1.0 / 252.0);
    assert_eq!(to(path::years(252)), 1.0);
    assert_eq!(to(path::years(100)), 100.0 / 252.0);
}

#[test]
fn the_exponent_follows_the_model() {
    let (vol, mu, dt) = (0.25f64, 0.08f64, 1.0 / 252.0f64);
    let terms = StepTerms::new(of(vol), of(mu), of(dt));
    assert_eq!(to(terms.drift_term), (mu - 0.5 * vol * vol) * dt);
    assert_eq!(to(terms.vol_term), vol * dt.sqrt());
    for z in [-2.5f64, 0.0, 0.3, 1.7] {
        let e = (mu - 0.5 * vol * vol) * dt + vol * dt.sqrt() * z;
        assert_eq!(to(terms.exponent(of(z))), e);
    }
}

#[test]
fn prices_grow_by_each_factor() {
    let mut a = args();
    a.days = 3;
    let growth = all(&[1.5, 0.5, 2.0]);
    let o = path::simulate_one_path(&a, &growth, true);
    assert_eq!(to(o.final_price), 150.0);
    let p: Vec<f64> = o.path.unwrap().iter().map(|x| to(*x)).collect();
    assert_eq!(p, vec![100.0, 150.0, 75.0, 150.0]);
    let o = path::simulate_one_path(&a, &growth, false);
    assert_eq!(to(o.final_price), 150.0);
    assert!(o.path.is_none());
}

#[test]
fn no_days_leave_the_initial_price() {
    let mut a = args();
    a.days = 0;
    let o = path::simulate_one_path(&a, &[], true);
    assert_eq!(to(o.final_price), 100.0);
    assert_eq!(o.path.unwrap().len(), 1);
}

#[test]
fn a_path_day_by_day_agrees_with_machine_arithmetic() {
    let terms = StepTerms::new(of(0.25), of(0.08), path::time_step());
    let mut sim = PathSim::start(of(100.0), 252, true);
    let dt = 1.0 / 252.0f64;
    let (drift_term, vol_term) = ((0.08 - 0.5 * 0.25 * 0.25) * dt, 0.25 * dt.sqrt());
    let mut price = 100.0f64;
    let mut expected = vec![price];
    for day in 0..252 {
        let z = ((day * 37) % 101) as f64 / 25.0 - 2.0;
        assert!(!sim.done());
        sim.advance(of(to(terms.exponent(of(z))).exp()));
        price *= (drift_term + vol_term * z).exp();
        expected.push(price);
    }
    assert!(sim.done());
    let o = sim.finish();
    assert_eq!(to(o.final_price), price);
    let p: Vec<f64> = o.path.unwrap().iter().map(|x| to(*x)).collect();
    assert_eq!(p, expected);
    assert!(p.iter().all(|x| *x >= 0.0));
}

fn outcome(final_price: f64, path: Option<&[f64]>) -> SimOutcome {
    SimOutcome { final_price: of(final_price), path: path.map(all) }
}

#[test]
fn final_prices_are_those_of_the_outcomes() {
    let outcomes = [outcome(3.0, None), outcome(1.0, Some(&[2.0, 1.0]))];
    assert_eq!(path::final_prices(&outcomes), all(&[3.0, 1.0]));
}

#[test]
fn recorded_paths_are_sampled_up_to_a_limit() {
    let outcomes = [
        outcome(1.0, Some(&[0.5, 1.0])),
        outcome(2.0, None),
        outcome(3.0, Some(&[0.5, 3.0])),
        outcome(4.0, Some(&[0.5, 4.0])),
    ];
    let all_paths = path::sampled_paths(&outcomes, 10);
    assert_eq!(all_paths, vec![all(&[0.5, 1.0]), all(&[0.5, 3.0]), all(&[0.5, 4.0])]);
    assert_eq!(path::sampled_paths(&outcomes, 2), vec![all(&[0.5, 1.0]), all(&[0.5, 3.0])]);
    assert!(path::sampled_paths(&outcomes, 0).is_empty());
}

#[test]
fn final_prices_have_one_line_each() {
    assert_eq!(csv::final_prices_csv(&[]), "final_price\n");
    let text = csv::final_prices_csv(&all(&[100.0, 99.1234565, 1e9]));
    assert_eq!(text, format!("final_price\n{:.6}\n{:.6}\n{:.6}\n", 100.0, 99.1234565, 1e9));
    assert_eq!(text.lines().count(), 4);
}

#[test]
fn sample_paths_have_a_row_per_day_and_a_column_per_path() {
    let paths = vec![all(&[100.0, 101.5, 99.25]), all(&[100.0, 98.0, 97.0])];
    assert!(csv::rectangular(&paths));
    assert_eq!(
        csv::paths_csv(&paths),
        "day,path_0,path_1\n\
         0,100.000000,100.000000\n\
         1,101.500000,98.000000\n\
         2,99.250000,97.000000\n"
    );
}

#[test]
fn longer_paths_are_cut_to_the_first() {
    let paths = vec![all(&[1.0]), all(&[2.0, 3.0])];
    assert!(csv::rectangular(&paths));
    assert_eq!(csv::paths_csv(&paths), "day,path_0,path_1\n0,1.000000,2.000000\n");
    assert!(!csv::rectangular(&vec![all(&[1.0, 2.0]), all(&[3.0])]));
    assert!(!csv::rectangular(&vec![]));
}

#[test]
fn many_paths_are_numbered() {
    let paths = vec![all(&[1.0]); 12];
    let text = csv::paths_csv(&paths);
    let head = text.lines().next().unwrap();
    assert!(head.starts_with("day,path_0,path_1,"));
    assert!(head.ends_with(",path_10,path_11"));
    assert!(text.lines().all(|l| l.matches(',').count() == 12));
}

#[test]
fn settings_are_reported() {
    let mut a = args();
    let lines = report::report_settings(&a, 42, of(1.2345));
    assert_eq!(
        lines.join("\n"),
        "Monte Carlo Stock Simulation (Geometric Brownian Motion)\n\
         ----------------------------------------------------------\n\
         Initial price:      100.00\n\
         Drift / Volatility:  8.00% / 25.00% (annualized)\n\
         Horizon:             252 trading days (~1.00 years)\n\
         Simulations:         1000\n\
         Seed:                42\n\
         Compute time:        1.234s"
    );
    a.strike = Some(of(100.0));
    let lines = report::report_settings(&a, 42, of(0.5));
    assert_eq!(
        lines[3],
        "Drift:               4.00% (risk-neutral, = risk-free rate; \
         real-world drift 8.00% ignored for pricing)"
    );
    assert_eq!(lines[4], "Volatility:          25.00%");
    assert_eq!(lines.len(), 9);
}

#[test]
fn the_distribution_is_reported() {
    let s = stats::compute_stats(&all(&[110.0, 90.0, 120.0, 80.0]), of(100.0), of(0.75));
    assert_eq!(
        report::report_distribution(&s, of(0.75)).join("\n"),
        "\nFinal price distribution\n\
         ----------------------------------------------------------\n\
         Mean:                100.0000\n\
         Std dev:             15.8114\n\
         Min / Max:           80.0000 / 120.0000\n\
         P05 / P25 / Median / P75 / P95:  80.0000 / 90.0000 / 110.0000 / 110.0000 / 120.0000\n\
         P(loss):             50.00%\n\
         VaR (75%):          20.00%  (loss on initial capital)\n\
         CVaR / Expected Shortfall (75%): 20.00%"
    );
}

#[test]
fn the_option_is_reported() {
    let mut a = args();
    a.strike = Some(of(110.0));
    a.option_type = OptionType::Put;
    let o = pricing::option_of(&a).unwrap();
    let r = pricing::OptionPricingResult {
        mc_price: of(12.5),
        std_error: of(0.25),
        ci_low: of(12.01),
        ci_high: of(12.99),
        black_scholes_price: of(12.0),
    };
    assert_eq!(
        report::report_option(&o, &r).join("\n"),
        "\nEuropean Put option pricing\n\
         ----------------------------------------------------------\n\
         Strike:              110.00\n\
         Risk-free rate:      4.00%\n\
         Time to expiry:      1.0000 years\n\
         Monte Carlo price:   12.5000  (95% CI: 12.0100 - 12.9900, SE: 0.2500)\n\
         Black-Scholes price: 12.0000\n\
         MC - BS difference:  0.5000  (4.167% of BS price)"
    );
    a.option_type = OptionType::Call;
    let o = pricing::option_of(&a).unwrap();
    assert_eq!(report::report_option(&o, &r)[1], "European Call option pricing");
}
