//! The report on a run.
use crate::args::{Args, OptionType};
use crate::binary64;
use crate::binary64::Binary64;
use crate::decimal;
use crate::grid;
use crate::path;
use crate::precision;
use crate::pricing::{EuropeanOption, OptionPricingResult};
use crate::scale;
use crate::stats::Stats;
use vstd::arithmetic::power2::*;
use vstd::prelude::*;
use vstd::string::*;

verus! {

/// `x` in percent: a hundred times as much.
pub open spec fn spec_percentage(x: Binary64) -> Binary64 {
    x.mul(Binary64::from_u64(100))
}

/// `x` in percent.
#[verifier::when_used_as_spec(spec_percentage)]
pub fn percentage(x: Binary64) -> (y: Binary64)
    ensures
        y == spec_percentage(x),
{
    x.mul(Binary64::from_u64(100))
}

/// Text, a number with `k` digits behind the point, and more text.
pub open spec fn spec_entry(before: Seq<char>, x: Binary64, k: nat, after: Seq<char>) -> Seq<char> {
    before + decimal::fixed(x, k) + after
}

fn entry(before: &str, x: Binary64, k: usize, after: &str) -> (text: String)
    requires
        k <= 9,
    ensures
        text@ == spec_entry(before@, x, k as nat, after@),
{
    let mut text: String = String::from_str(before);
    decimal::push_fixed(&mut text, x, k);
    text.append(after);
    text
}

/// Adds to `text` a number with `k` digits behind the point, and more text.
fn extend(text: &mut String, x: Binary64, k: usize, after: &str)
    requires
        k <= 9,
    ensures
        final(text)@ == spec_entry(old(text)@, x, k as nat, after@),
{
    decimal::push_fixed(text, x, k);
    text.append(after);
}

fn counted(before: &str, n: u64, after: &str) -> (text: String)
    ensures
        text@ == before@ + decimal::digits(n as int) + after@,
{
    let mut text: String = String::from_str(before);
    decimal::push_digits(&mut text, n as u128);
    text.append(after);
    text
}

/// What lines of text hold.
pub open spec fn views(lines: Seq<String>) -> Seq<Seq<char>> {
    lines.map_values(|l: String| l@)
}

fn push_line(lines: &mut Vec<String>, line: String)
    ensures
        views(final(lines)@) == views(old(lines)@).push(line@),
{
    lines.push(line);
    proof {
        assert(views(lines@) =~= views(old(lines)@).push(line@));
    }
}

/// The lines on what was simulated.
pub open spec fn settings_lines(args: Args, seed: u64, seconds: Binary64) -> Seq<Seq<char>> {
    let mu = args.spec_measure_drift();
    let drift = if args.strike is Some {
        seq![
            spec_entry(
                spec_entry(
                    "Drift:               "@,
                    percentage(mu),
                    2,
                    "% (risk-neutral, = risk-free rate; real-world drift "@,
                ),
                percentage(args.drift),
                2,
                "% ignored for pricing)"@,
            ),
            spec_entry("Volatility:          "@, percentage(args.volatility), 2, "%"@),
        ]
    } else {
        seq![
            spec_entry(
                spec_entry("Drift / Volatility:  "@, percentage(args.drift), 2, "% / "@),
                percentage(args.volatility),
                2,
                "% (annualized)"@,
            ),
        ]
    };
    seq![
        "Monte Carlo Stock Simulation (Geometric Brownian Motion)"@,
        "----------------------------------------------------------"@,
        spec_entry("Initial price:      "@, args.initial_price, 2, ""@),
    ] + drift + seq![
        spec_entry(
            "Horizon:             "@ + decimal::digits(args.days as int) + " trading days (~"@,
            path::years(args.days),
            2,
            " years)"@,
        ),
        "Simulations:         "@ + decimal::digits(args.simulations as int) + ""@,
        "Seed:                "@ + decimal::digits(seed as int) + ""@,
        spec_entry("Compute time:        "@, seconds, 3, "s"@),
    ]
}

/// The lines on how the final prices are distributed.
pub open spec fn distribution_lines(stats: Stats, confidence: Binary64) -> Seq<Seq<char>> {
    seq![
        ""@,
        "Final price distribution"@,
        "----------------------------------------------------------"@,
        spec_entry("Mean:                "@, stats.mean, 4, ""@),
        spec_entry("Std dev:             "@, stats.std_dev, 4, ""@),
        spec_entry(spec_entry("Min / Max:           "@, stats.min, 4, " / "@), stats.max, 4, ""@),
        spec_entry(
            spec_entry(
                spec_entry(
                    spec_entry(
                        spec_entry("P05 / P25 / Median / P75 / P95:  "@, stats.p05, 4, " / "@),
                        stats.p25,
                        4,
                        " / "@,
                    ),
                    stats.median,
                    4,
                    " / "@,
                ),
                stats.p75,
                4,
                " / "@,
            ),
            stats.p95,
            4,
            ""@,
        ),
        spec_entry("P(loss):             "@, percentage(stats.prob_loss), 2, "%"@),
        spec_entry(
            spec_entry("VaR ("@, percentage(confidence), 0, "%):          "@),
            percentage(stats.var),
            2,
            "%  (loss on initial capital)"@,
        ),
        spec_entry(
            spec_entry(
                "CVaR / Expected Shortfall ("@,
                percentage(confidence),
                0,
                "%): "@,
            ),
            percentage(stats.cvar),
            2,
            "%"@,
        ),
    ]
}

/// The name of an option type.
pub open spec fn kind_name(option_type: OptionType) -> Seq<char> {
    match option_type {
        OptionType::Call => "Call"@,
        OptionType::Put => "Put"@,
    }
}

/// The lines on the price of an option.
pub open spec fn option_lines(option: EuropeanOption, result: OptionPricingResult) -> Seq<
    Seq<char>,
> {
    let diff = result.mc_price.sub(result.black_scholes_price);
    seq![
        ""@,
        "European "@ + kind_name(option.option_type) + " option pricing"@,
        "----------------------------------------------------------"@,
        spec_entry("Strike:              "@, option.k, 2, ""@),
        spec_entry("Risk-free rate:      "@, percentage(option.r), 2, "%"@),
        spec_entry("Time to expiry:      "@, option.t, 4, " years"@),
        spec_entry(
            spec_entry(
                spec_entry(
                    spec_entry("Monte Carlo price:   "@, result.mc_price, 4, "  (95% CI: "@),
                    result.ci_low,
                    4,
                    " - "@,
                ),
                result.ci_high,
                4,
                ", SE: "@,
            ),
            result.std_error,
            4,
            ")"@,
        ),
        spec_entry("Black-Scholes price: "@, result.black_scholes_price, 4, ""@),
        spec_entry(
            spec_entry("MC - BS difference:  "@, diff, 4, "  ("@),
            Binary64::from_u64(100).mul(diff).div(result.black_scholes_price),
            3,
            "% of BS price)"@,
        ),
    ]
}

/// The lines on what was simulated: the arguments, the seed used and the time
/// that it took.
pub fn report_settings(args: &Args, seed: u64, seconds: Binary64) -> (lines: Vec<String>)
    ensures
        views(lines@) == settings_lines(*args, seed, seconds),
{
    let mut lines: Vec<String> = Vec::new();
    push_line(
        &mut lines,
        String::from_str("Monte Carlo Stock Simulation (Geometric Brownian Motion)"),
    );
    push_line(
        &mut lines,
        String::from_str("----------------------------------------------------------"),
    );
    push_line(&mut lines, entry("Initial price:      ", args.initial_price, 2, ""));
    if args.strike.is_some() {
        let mut drift: String = entry(
            "Drift:               ",
            percentage(args.measure_drift()),
            2,
            "% (risk-neutral, = risk-free rate; real-world drift ",
        );
        extend(&mut drift, percentage(args.drift), 2, "% ignored for pricing)");
        push_line(&mut lines, drift);
        push_line(
            &mut lines,
            entry("Volatility:          ", percentage(args.volatility), 2, "%"),
        );
    } else {
        let mut drift: String = entry("Drift / Volatility:  ", percentage(args.drift), 2, "% / ");
        extend(&mut drift, percentage(args.volatility), 2, "% (annualized)");
        push_line(&mut lines, drift);
    }
    let mut horizon: String = counted(
        "Horizon:             ",
        args.days as u64,
        " trading days (~",
    );
    extend(&mut horizon, path::years(args.days), 2, " years)");
    push_line(&mut lines, horizon);
    push_line(&mut lines, counted("Simulations:         ", args.simulations as u64, ""));
    push_line(&mut lines, counted("Seed:                ", seed, ""));
    push_line(&mut lines, entry("Compute time:        ", seconds, 3, "s"));
    proof {
        assert(views(lines@) =~= settings_lines(*args, seed, seconds));
    }
    lines
}

/// The lines on how the final prices are distributed.
pub fn report_distribution(stats: &Stats, confidence: Binary64) -> (lines: Vec<String>)
    ensures
        views(lines@) == distribution_lines(*stats, confidence),
{
    let mut lines: Vec<String> = Vec::new();
    push_line(&mut lines, String::from_str(""));
    push_line(&mut lines, String::from_str("Final price distribution"));
    push_line(
        &mut lines,
        String::from_str("----------------------------------------------------------"),
    );
    push_line(&mut lines, entry("Mean:                ", stats.mean, 4, ""));
    push_line(&mut lines, entry("Std dev:             ", stats.std_dev, 4, ""));
    let mut range: String = entry("Min / Max:           ", stats.min, 4, " / ");
    extend(&mut range, stats.max, 4, "");
    push_line(&mut lines, range);
    let mut percentiles: String = entry("P05 / P25 / Median / P75 / P95:  ", stats.p05, 4, " / ");
    extend(&mut percentiles, stats.p25, 4, " / ");
    extend(&mut percentiles, stats.median, 4, " / ");
    extend(&mut percentiles, stats.p75, 4, " / ");
    extend(&mut percentiles, stats.p95, 4, "");
    push_line(&mut lines, percentiles);
    push_line(&mut lines, entry("P(loss):             ", percentage(stats.prob_loss), 2, "%"));
    let mut var: String = entry("VaR (", percentage(confidence), 0, "%):          ");
    extend(&mut var, percentage(stats.var), 2, "%  (loss on initial capital)");
    push_line(&mut lines, var);
    let mut cvar: String = entry("CVaR / Expected Shortfall (", percentage(confidence), 0, "%): ");
    extend(&mut cvar, percentage(stats.cvar), 2, "%");
    push_line(&mut lines, cvar);
    proof {
        assert(views(lines@) =~= distribution_lines(*stats, confidence));
    }
    lines
}

/// The lines on the price of an option.
pub fn report_option(option: &EuropeanOption, result: &OptionPricingResult) -> (lines: Vec<String>)
    ensures
        views(lines@) == option_lines(*option, *result),
{
    let diff: Binary64 = result.mc_price.sub(result.black_scholes_price);
    let mut lines: Vec<String> = Vec::new();
    push_line(&mut lines, String::from_str(""));
    let name: &str = match option.option_type {
        OptionType::Call => "Call",
        OptionType::Put => "Put",
    };
    push_line(
        &mut lines,
        String::from_str("European ").concat(name).concat(" option pricing"),
    );
    push_line(
        &mut lines,
        String::from_str("----------------------------------------------------------"),
    );
    push_line(&mut lines, entry("Strike:              ", option.k, 2, ""));
    push_line(&mut lines, entry("Risk-free rate:      ", percentage(option.r), 2, "%"));
    push_line(&mut lines, entry("Time to expiry:      ", option.t, 4, " years"));
    let mut price: String = entry("Monte Carlo price:   ", result.mc_price, 4, "  (95% CI: ");
    extend(&mut price, result.ci_low, 4, " - ");
    extend(&mut price, result.ci_high, 4, ", SE: ");
    extend(&mut price, result.std_error, 4, ")");
    push_line(&mut lines, price);
    push_line(&mut lines, entry("Black-Scholes price: ", result.black_scholes_price, 4, ""));
    let mut difference: String = entry("MC - BS difference:  ", diff, 4, "  (");
    extend(
        &mut difference,
        Binary64::from_u64(100).mul(diff).div(result.black_scholes_price),
        3,
        "% of BS price)",
    );
    push_line(&mut lines, difference);
    proof {
        assert(views(lines@) =~= option_lines(*option, *result));
    }
    lines
}

/// What a line shows in one place: a number with this many digits behind the point, or
/// a count.
pub enum Shown {
    Number(Binary64, u64),
    Count(u64),
}

/// A text shows a number where it denotes it, and a count where it reads as it.
pub open spec fn shows(cell: Seq<char>, what: Shown) -> bool {
    match what {
        Shown::Number(x, k) => decimal::denotes(cell, x, k as nat),
        Shown::Count(n) => decimal::is_numeral(cell, 0) && decimal::denoted(cell, 0) == n,
    }
}

/// Words with a cell between each two.
pub open spec fn woven(words: Seq<Seq<char>>, cells: Seq<Seq<char>>) -> Seq<char>
    decreases cells.len(),
{
    if cells.len() == 0 {
        words[0]
    } else {
        woven(words.drop_last(), cells.drop_last()) + cells.last() + words.last()
    }
}

/// A line that reads as these words with these things shown between them.
pub open spec fn reads(line: Seq<char>, words: Seq<Seq<char>>, things: Seq<Shown>) -> bool {
    exists|cells: Seq<Seq<char>>|
        {
            &&& cells.len() == things.len()
            &&& words.len() == cells.len() + 1
            &&& line == #[trigger] woven(words, cells)
            &&& forall|i: int| 0 <= i < things.len() ==> shows(cells[i], #[trigger] things[i])
        }
}

/// The text that is written for a thing.
spec fn written(what: Shown) -> Seq<char> {
    match what {
        Shown::Number(x, k) => decimal::fixed(x, k as nat),
        Shown::Count(n) => decimal::digits(n as int),
    }
}

proof fn lemma_written(what: Shown)
    ensures
        shows(written(what), what),
{
    match what {
        Shown::Number(x, k) => {
            decimal::lemma_fixed_reads_back(x, k as nat);
        },
        Shown::Count(n) => {
            let d = decimal::digits(n as int);
            decimal::lemma_digits_are_digits(n as int);
            decimal::lemma_digits_read_back(n as int);
            assert(decimal::is_digit(d[0]));
        },
    }
}

/// Words with one thing between them.
proof fn lemma_reads_one(a: Seq<char>, x: Shown, b: Seq<char>)
    ensures
        reads(a + written(x) + b, seq![a, b], seq![x]),
{
    let cells = seq![written(x)];
    let words = seq![a, b];
    lemma_written(x);
    reveal_with_fuel(woven, 2);
    assert(words.drop_last() =~= seq![a]);
    assert(cells.drop_last() =~= Seq::<Seq<char>>::empty());
    assert(woven(words, cells) =~= a + written(x) + b);
}

/// A further thing.
proof fn lemma_reads_more(
    line: Seq<char>,
    words: Seq<Seq<char>>,
    things: Seq<Shown>,
    x: Shown,
    b: Seq<char>,
)
    requires
        reads(line, words, things),
    ensures
        reads(line + written(x) + b, words.push(b), things.push(x)),
{
    let cells = choose|cells: Seq<Seq<char>>|
        {
            &&& cells.len() == things.len()
            &&& words.len() == cells.len() + 1
            &&& line == #[trigger] woven(words, cells)
            &&& forall|i: int| 0 <= i < things.len() ==> shows(cells[i], #[trigger] things[i])
        };
    let more = cells.push(written(x));
    lemma_written(x);
    assert(words.push(b).drop_last() =~= words);
    assert(more.drop_last() =~= cells);
    assert(woven(words.push(b), more) == line + written(x) + b);
    let all = things.push(x);
    assert forall|i: int| 0 <= i < all.len() implies shows(more[i], #[trigger] all[i]) by {
        if i < things.len() {
            assert(shows(cells[i], things[i]));
        }
    }
}

/// A percentage is a hundred times the share, up to rounding.
pub proof fn lemma_percentage(x: Binary64)
    requires
        percentage(x).finite(),
    ensures
        x.finite(),
        precision::SHARE * vstd::math::abs(percentage(x).value() - 100 * x.value()) <= 100
            * vstd::math::abs(x.value()) + grid::BINADE,
{
    let o = binary64::one();
    let h = precision::SHARE as int;
    lemma_pow2_pos(1074);
    scale::lemma_finite_factors(x, Binary64::from_u64(100));
    Binary64::lemma_from_u64_exact(100);
    precision::lemma_mul_error(x, Binary64::from_u64(100));
    let (v, y) = (x.value(), percentage(x).value());
    let e = y - 100 * v;
    let (a, s) = (vstd::math::abs(e) as int, vstd::math::abs(v) as int);
    assert(o * y - v * (100 * o) == o * e && vstd::math::abs(o * e) == o * a && vstd::math::abs(
        v * (100 * o),
    ) == 100 * (o * s)) by (nonlinear_arith)
        requires
            e == y - 100 * v,
            0 < o,
            a == (if e < 0 { -e } else { e }),
            s == (if v < 0 { -v } else { v }),
    ;
    assert(h * a <= 100 * s + grid::BINADE) by (nonlinear_arith)
        requires
            h * (o * a) <= 100 * (o * s) + grid::BINADE * o,
            0 < o,
    ;
}

/// The settings, read again: the initial price, the drift that prices are simulated
/// with, which is the risk-free rate where an option is priced, the volatility, the
/// horizon in days and years, the number of simulations, the seed and the time.
#[verifier::rlimit(40)]
pub proof fn lemma_settings_read_back(args: Args, seed: u64, seconds: Binary64)
    ensures
        ({
            let lines = settings_lines(args, seed, seconds);
            let hundred = Binary64::from_u64(100);
            let years = Binary64::from_u64(args.days as u64).div(Binary64::from_u64(252));
            let next = if args.strike is Some {
                5int
            } else {
                4
            };
            &&& lines.len() == next + 4
            &&& reads(
                lines[2],
                seq!["Initial price:      "@, ""@],
                seq![Shown::Number(args.initial_price, 2)],
            )
            &&& args.strike is Some ==> reads(
                lines[3],
                seq![
                    "Drift:               "@,
                    "% (risk-neutral, = risk-free rate; real-world drift "@,
                    "% ignored for pricing)"@,
                ],
                seq![
                    Shown::Number(args.risk_free_rate.mul(hundred), 2),
                    Shown::Number(args.drift.mul(hundred), 2),
                ],
            )
            &&& args.strike is Some ==> reads(
                lines[4],
                seq!["Volatility:          "@, "%"@],
                seq![Shown::Number(args.volatility.mul(hundred), 2)],
            )
            &&& args.strike is None ==> reads(
                lines[3],
                seq!["Drift / Volatility:  "@, "% / "@, "% (annualized)"@],
                seq![
                    Shown::Number(args.drift.mul(hundred), 2),
                    Shown::Number(args.volatility.mul(hundred), 2),
                ],
            )
            &&& reads(
                lines[next],
                seq!["Horizon:             "@, " trading days (~"@, " years)"@],
                seq![Shown::Count(args.days as u64), Shown::Number(years, 2)],
            )
            &&& reads(
                lines[next + 1],
                seq!["Simulations:         "@, ""@],
                seq![Shown::Count(args.simulations as u64)],
            )
            &&& reads(
                lines[next + 2],
                seq!["Seed:                "@, ""@],
                seq![Shown::Count(seed)],
            )
            &&& reads(
                lines[next + 3],
                seq!["Compute time:        "@, "s"@],
                seq![Shown::Number(seconds, 3)],
            )
        }),
{
    let hundred = Binary64::from_u64(100);
    let years = Binary64::from_u64(args.days as u64).div(Binary64::from_u64(252));
    let (rate, drift, vol) = (
        Shown::Number(args.risk_free_rate.mul(hundred), 2),
        Shown::Number(args.drift.mul(hundred), 2),
        Shown::Number(args.volatility.mul(hundred), 2),
    );
    lemma_reads_one("Initial price:      "@, Shown::Number(args.initial_price, 2), ""@);
    lemma_two(
        "Drift:               "@,
        rate,
        "% (risk-neutral, = risk-free rate; real-world drift "@,
        drift,
        "% ignored for pricing)"@,
    );
    lemma_reads_one("Volatility:          "@, vol, "%"@);
    lemma_two("Drift / Volatility:  "@, drift, "% / "@, vol, "% (annualized)"@);
    lemma_two(
        "Horizon:             "@,
        Shown::Count(args.days as u64),
        " trading days (~"@,
        Shown::Number(years, 2),
        " years)"@,
    );
    lemma_reads_one("Simulations:         "@, Shown::Count(args.simulations as u64), ""@);
    lemma_reads_one("Seed:                "@, Shown::Count(seed), ""@);
    lemma_reads_one("Compute time:        "@, Shown::Number(seconds, 3), "s"@);
}

proof fn lemma_two(a: Seq<char>, x: Shown, b: Seq<char>, y: Shown, c: Seq<char>)
    ensures
        reads(a + written(x) + b + written(y) + c, seq![a, b, c], seq![x, y]),
{
    lemma_reads_one(a, x, b);
    lemma_reads_more(a + written(x) + b, seq![a, b], seq![x], y, c);
    assert(seq![a, b].push(c) =~= seq![a, b, c]);
    assert(seq![x].push(y) =~= seq![x, y]);
}

/// The distribution, read again: the mean and the standard deviation, the range, the
/// percentiles from the lowest to the highest, the probability of a loss, and at the
/// confidence the value at risk and the expected shortfall, in percent.
#[verifier::rlimit(40)]
pub proof fn lemma_distribution_read_back(stats: Stats, confidence: Binary64)
    ensures
        ({
            let lines = distribution_lines(stats, confidence);
            let hundred = Binary64::from_u64(100);
            &&& lines.len() == 10
            &&& reads(
                lines[3],
                seq!["Mean:                "@, ""@],
                seq![Shown::Number(stats.mean, 4)],
            )
            &&& reads(
                lines[4],
                seq!["Std dev:             "@, ""@],
                seq![Shown::Number(stats.std_dev, 4)],
            )
            &&& reads(
                lines[5],
                seq!["Min / Max:           "@, " / "@, ""@],
                seq![Shown::Number(stats.min, 4), Shown::Number(stats.max, 4)],
            )
            &&& reads(
                lines[6],
                seq![
                    "P05 / P25 / Median / P75 / P95:  "@,
                    " / "@,
                    " / "@,
                    " / "@,
                    " / "@,
                    ""@,
                ],
                seq![
                    Shown::Number(stats.p05, 4),
                    Shown::Number(stats.p25, 4),
                    Shown::Number(stats.median, 4),
                    Shown::Number(stats.p75, 4),
                    Shown::Number(stats.p95, 4),
                ],
            )
            &&& reads(
                lines[7],
                seq!["P(loss):             "@, "%"@],
                seq![Shown::Number(stats.prob_loss.mul(hundred), 2)],
            )
            &&& reads(
                lines[8],
                seq!["VaR ("@, "%):          "@, "%  (loss on initial capital)"@],
                seq![
                    Shown::Number(confidence.mul(hundred), 0),
                    Shown::Number(stats.var.mul(hundred), 2),
                ],
            )
            &&& reads(
                lines[9],
                seq!["CVaR / Expected Shortfall ("@, "%): "@, "%"@],
                seq![
                    Shown::Number(confidence.mul(hundred), 0),
                    Shown::Number(stats.cvar.mul(hundred), 2),
                ],
            )
        }),
{
    let hundred = Binary64::from_u64(100);
    let (c, v, w) = (
        Shown::Number(confidence.mul(hundred), 0),
        Shown::Number(stats.var.mul(hundred), 2),
        Shown::Number(stats.cvar.mul(hundred), 2),
    );
    let (a, b, d, e, f) = (
        Shown::Number(stats.p05, 4),
        Shown::Number(stats.p25, 4),
        Shown::Number(stats.median, 4),
        Shown::Number(stats.p75, 4),
        Shown::Number(stats.p95, 4),
    );
    let m = " / "@;
    lemma_reads_one("Mean:                "@, Shown::Number(stats.mean, 4), ""@);
    lemma_reads_one("Std dev:             "@, Shown::Number(stats.std_dev, 4), ""@);
    lemma_two(
        "Min / Max:           "@,
        Shown::Number(stats.min, 4),
        m,
        Shown::Number(stats.max, 4),
        ""@,
    );
    let start = "P05 / P25 / Median / P75 / P95:  "@;
    lemma_two(start, a, m, b, m);
    let two = start + written(a) + m + written(b) + m;
    lemma_reads_more(two, seq![start, m, m], seq![a, b], d, m);
    let three = two + written(d) + m;
    lemma_reads_more(three, seq![start, m, m].push(m), seq![a, b].push(d), e, m);
    let four = three + written(e) + m;
    lemma_reads_more(
        four,
        seq![start, m, m].push(m).push(m),
        seq![a, b].push(d).push(e),
        f,
        ""@,
    );
    assert(seq![start, m, m].push(m).push(m).push(""@) =~= seq![start, m, m, m, m, ""@]);
    assert(seq![a, b].push(d).push(e).push(f) =~= seq![a, b, d, e, f]);
    lemma_reads_one(
        "P(loss):             "@,
        Shown::Number(stats.prob_loss.mul(hundred), 2),
        "%"@,
    );
    lemma_two("VaR ("@, c, "%):          "@, v, "%  (loss on initial capital)"@);
    lemma_two("CVaR / Expected Shortfall ("@, c, "%): "@, w, "%"@);
}

/// The option, read again: its kind, strike, rate and expiry, the simulated price with
/// its interval and standard error, the closed-form price, and by how much the two
/// differ, also in percent of the closed-form price.
#[verifier::rlimit(40)]
pub proof fn lemma_option_read_back(option: EuropeanOption, result: OptionPricingResult)
    ensures
        ({
            let lines = option_lines(option, result);
            let hundred = Binary64::from_u64(100);
            let diff = result.mc_price.sub(result.black_scholes_price);
            &&& lines.len() == 9
            &&& option.option_type == OptionType::Call ==> lines[1] == "European "@ + "Call"@
                + " option pricing"@
            &&& option.option_type == OptionType::Put ==> lines[1] == "European "@ + "Put"@
                + " option pricing"@
            &&& reads(
                lines[3],
                seq!["Strike:              "@, ""@],
                seq![Shown::Number(option.k, 2)],
            )
            &&& reads(
                lines[4],
                seq!["Risk-free rate:      "@, "%"@],
                seq![Shown::Number(option.r.mul(hundred), 2)],
            )
            &&& reads(
                lines[5],
                seq!["Time to expiry:      "@, " years"@],
                seq![Shown::Number(option.t, 4)],
            )
            &&& reads(
                lines[6],
                seq!["Monte Carlo price:   "@, "  (95% CI: "@, " - "@, ", SE: "@, ")"@],
                seq![
                    Shown::Number(result.mc_price, 4),
                    Shown::Number(result.ci_low, 4),
                    Shown::Number(result.ci_high, 4),
                    Shown::Number(result.std_error, 4),
                ],
            )
            &&& reads(
                lines[7],
                seq!["Black-Scholes price: "@, ""@],
                seq![Shown::Number(result.black_scholes_price, 4)],
            )
            &&& reads(
                lines[8],
                seq!["MC - BS difference:  "@, "  ("@, "% of BS price)"@],
                seq![
                    Shown::Number(diff, 4),
                    Shown::Number(hundred.mul(diff).div(result.black_scholes_price), 3),
                ],
            )
        }),
{
    let hundred = Binary64::from_u64(100);
    let diff = result.mc_price.sub(result.black_scholes_price);
    lemma_reads_one("Strike:              "@, Shown::Number(option.k, 2), ""@);
    lemma_reads_one("Risk-free rate:      "@, Shown::Number(option.r.mul(hundred), 2), "%"@);
    lemma_reads_one("Time to expiry:      "@, Shown::Number(option.t, 4), " years"@);
    let (a, b, c, d) = (
        Shown::Number(result.mc_price, 4),
        Shown::Number(result.ci_low, 4),
        Shown::Number(result.ci_high, 4),
        Shown::Number(result.std_error, 4),
    );
    let (start, s, t, u) = ("Monte Carlo price:   "@, "  (95% CI: "@, " - "@, ", SE: "@);
    lemma_two(start, a, s, b, t);
    let two = start + written(a) + s + written(b) + t;
    lemma_reads_more(two, seq![start, s, t], seq![a, b], c, u);
    let three = two + written(c) + u;
    lemma_reads_more(three, seq![start, s, t].push(u), seq![a, b].push(c), d, ")"@);
    assert(seq![start, s, t].push(u).push(")"@) =~= seq![start, s, t, u, ")"@]);
    assert(seq![a, b].push(c).push(d) =~= seq![a, b, c, d]);
    lemma_reads_one(
        "Black-Scholes price: "@,
        Shown::Number(result.black_scholes_price, 4),
        ""@,
    );
    lemma_two(
        "MC - BS difference:  "@,
        Shown::Number(diff, 4),
        "  ("@,
        Shown::Number(hundred.mul(diff).div(result.black_scholes_price), 3),
        "% of BS price)"@,
    );
}

} // verus!
