//! What the prices of an option are made of, in exact arithmetic: payoffs, discounting,
//! the standard error and the interval, up to rounding.
//!
//! Exact values are in units of 2^-1074, of which `one()` make one.
use crate::accuracy;
use crate::args::OptionType;
use crate::binary64;
use crate::binary64::Binary64;
use crate::grid;
use crate::model;
use crate::precision;
use crate::pricing;
use crate::pricing::EuropeanOption;
use crate::scale;
use crate::stats;
use crate::sums;
use vstd::arithmetic::power2::*;
use vstd::math::abs;
use vstd::prelude::*;

verus! {

/// What exercising the option gains, exactly: the stock less the strike for a call, and
/// the strike less the stock for a put.
pub open spec fn exercise_gain(option: EuropeanOption, s: Binary64) -> int {
    match option.option_type {
        OptionType::Call => s.value() - option.k.value(),
        OptionType::Put => option.k.value() - s.value(),
    }
}

/// An option pays what exercising it gains, up to rounding, and nothing where that
/// gains nothing.
pub proof fn lemma_payoff_value(option: EuropeanOption, s: Binary64)
    requires
        s.finite(),
        option.k.finite(),
    ensures
        exercise_gain(option, s) <= 0 ==> option.payoff(s).value() == 0 && option.payoff(
            s,
        ).finite(),
        exercise_gain(option, s) > 0 && option.payoff(s).finite() ==> precision::SHARE * abs(
            option.payoff(s).value() - exercise_gain(option, s),
        ) <= exercise_gain(option, s),
        exercise_gain(option, s) > 0 ==> option.payoff(s).rank() > 0,
{
    let k = option.k;
    let exact = exercise_gain(option, s);
    let n = abs(exact) as int;
    Binary64::lemma_from_zero();
    Binary64::lemma_pack(!k.negative(), k.magnitude());
    Binary64::lemma_pack(!s.negative(), s.magnitude());
    grid::lemma_units_small(0);
    grid::lemma_units_small(1);
    grid::lemma_rounded(n, 1);
    let r = grid::rounded(n, 1);
    precision::lemma_units_natural(r);
    if exact != 0 {
        Binary64::lemma_pack(true, r);
        Binary64::lemma_pack(false, r);
        if r < grid::INF {
            precision::lemma_rounding_error(n, 1);
        }
        precision::lemma_rounding_bound(n, 1, 1);
    } else {
        Binary64::lemma_pack(true, 0);
        Binary64::lemma_pack(false, 0);
    }
}

/// An option over a price that is not a number pays nothing.
pub proof fn lemma_payoff_of_nan(option: EuropeanOption, s: Binary64)
    requires
        s.nan(),
    ensures
        option.payoff(s).zero() && !option.payoff(s).negative(),
{
    Binary64::lemma_from_zero();
    Binary64::lemma_pack(!s.negative(), s.magnitude());
}

/// There is one payoff for each price, in order.
pub proof fn lemma_payoffs(option: EuropeanOption, prices: Seq<Binary64>)
    ensures
        option.spec_payoffs(prices).len() == prices.len(),
        forall|i: int|
            0 <= i < prices.len() ==> option.spec_payoffs(prices)[i] == option.payoff(
                #[trigger] prices[i],
            ),
{
}

/// The moneyness is the stock price over the strike: times the strike it is the stock
/// price, up to rounding.
pub proof fn lemma_moneyness(option: EuropeanOption)
    requires
        option.s0.finite(),
        option.k.finite(),
        !option.k.zero(),
        option.moneyness().finite(),
    ensures
        precision::SHARE * abs(
            option.k.value() * option.moneyness().value() - binary64::one() * option.s0.value(),
        ) <= binary64::one() * abs(option.s0.value()) + grid::BINADE * abs(option.k.value()),
{
    precision::lemma_div_error(option.s0, option.k);
}

/// The discount factor is the exponential of minus the rate times the years, up to
/// rounding.
pub proof fn lemma_discount_exponent(option: EuropeanOption)
    requires
        option.discount_exponent().finite(),
    ensures
        option.r.finite() && option.t.finite(),
        precision::SHARE * abs(
            binary64::one() * option.discount_exponent().value() + option.r.value()
                * option.t.value(),
        ) <= abs(option.r.value() * option.t.value()) + grid::BINADE * binary64::one(),
{
    let (r, t) = (option.r, option.t);
    scale::lemma_finite_factors(r.neg(), t);
    Binary64::lemma_pack(!r.negative(), r.magnitude());
    precision::lemma_mul_error(r.neg(), t);
    let (x, y) = (r.value(), t.value());
    assert((-x) * y == -(x * y)) by (nonlinear_arith);
}

/// The simulated price is the discounted mean payoff: with n prices, n times it is
/// the discounted sum of the payoffs, up to rounding.
#[verifier::rlimit(40)]
pub proof fn lemma_simulated_price(
    option: EuropeanOption,
    prices: Seq<Binary64>,
    ln_moneyness: Binary64,
    discount: Binary64,
    gauss1: Binary64,
    gauss2: Binary64,
)
    requires
        1 <= prices.len() <= 1_000_000,
        !discount.negative(),
        option.spec_price_option(prices, ln_moneyness, discount, gauss1, gauss2).mc_price.finite(),
    ensures
        ({
            let n = prices.len() as int;
            let o = binary64::one();
            let b = grid::BINADE as int;
            let payoffs = Seq::new(prices.len(), |i: int| option.payoff(prices[i]));
            let x = sums::exact_total(payoffs);
            let price = option.spec_price_option(
                prices,
                ln_moneyness,
                discount,
                gauss1,
                gauss2,
            ).mc_price.value();
            precision::SHARE * abs(o * (n * price) - discount.value() * x) <= discount.value() * (6
                * x + (b + 1) * n + 2 * (n * x)) + b * (n * o)
        }),
{
    let payoffs = Seq::new(prices.len(), |i: int| option.payoff(prices[i]));
    assert(option.spec_payoffs(prices) =~= payoffs);
    assert forall|i: int| 0 <= i < payoffs.len() implies !(#[trigger] payoffs[i]).negative() by {
        option.lemma_payoff_not_negative(prices[i]);
    }
    sums::lemma_discounted_mean_error(payoffs, discount);
}

/// The standard error of n prices, times the square root of n, is the discounted
/// standard deviation of the payoffs, up to rounding.
#[verifier::rlimit(40)]
pub proof fn lemma_standard_error(
    option: EuropeanOption,
    prices: Seq<Binary64>,
    ln_moneyness: Binary64,
    discount: Binary64,
    gauss1: Binary64,
    gauss2: Binary64,
)
    requires
        1 <= prices.len() <= 2 * grid::BINADE,
        option.spec_price_option(prices, ln_moneyness, discount, gauss1, gauss2).std_error.finite(),
    ensures
        ({
            let n = prices.len() as int;
            let o = binary64::one();
            let root = Binary64::from_u64(n as u64).sqrt().value();
            let payoffs = Seq::new(prices.len(), |i: int| option.payoff(prices[i]));
            let spread = discount.value() * stats::std_dev(payoffs).value();
            let error = option.spec_price_option(
                prices,
                ln_moneyness,
                discount,
                gauss1,
                gauss2,
            ).std_error.value();
            &&& precision::SHARE * abs(root * error - spread) <= 3 * abs(spread) + grid::BINADE * (
            abs(root) + 2 * o)
            &&& grid::BINADE * abs(root * root - n * (o * o)) <= 4 * (n * (o * o))
        }),
{
    let payoffs = Seq::new(prices.len(), |i: int| option.payoff(prices[i]));
    assert(option.spec_payoffs(prices) =~= payoffs);
    lemma_error_of(payoffs, discount);
}

/// The standard error of a discounted mean.
#[verifier::rlimit(40)]
proof fn lemma_error_of(payoffs: Seq<Binary64>, discount: Binary64)
    requires
        1 <= payoffs.len() <= 2 * grid::BINADE,
        ({
            let root = Binary64::from_u64(payoffs.len() as u64).sqrt();
            discount.mul(stats::std_dev(payoffs)).div(root).finite()
        }),
    ensures
        ({
            let n = payoffs.len() as int;
            let o = binary64::one();
            let root = Binary64::from_u64(n as u64).sqrt();
            let spread = discount.value() * stats::std_dev(payoffs).value();
            let error = discount.mul(stats::std_dev(payoffs)).div(root).value();
            &&& precision::SHARE * abs(root.value() * error - spread) <= 3 * abs(spread)
                + grid::BINADE * (abs(root.value()) + 2 * o)
            &&& grid::BINADE * abs(root.value() * root.value() - n * (o * o)) <= 4 * (n * (o * o))
        }),
{
    let n = payoffs.len() as int;
    let o = binary64::one();
    let len = Binary64::from_u64(n as u64);
    let root = len.sqrt();
    let sd = stats::std_dev(payoffs);
    let a = discount.mul(sd);
    lemma_pow2_pos(1074);
    Binary64::lemma_from_u64_exact(n as u64);
    let no = n * o;
    assert(no >= o && o * no == n * (o * o)) by (nonlinear_arith)
        requires
            no == n * o,
            n >= 1,
            o >= 1,
    ;
    lemma_root_is_finite(len);
    accuracy::lemma_root_error(len);
    Binary64::lemma_pack(a.negative() != root.negative(), grid::INF as int);
    assert(!root.zero()) by {
        grid::lemma_units_small(0);
        if root.zero() {
            assert(0 * 0 == 0);
        }
    }
    assert(a.finite());
    scale::lemma_finite_factors(discount, sd);
    precision::lemma_mul_error(discount, sd);
    precision::lemma_div_error(a, root);
    let x = a.value();
    assert(o * abs(x) == abs(o * x)) by (nonlinear_arith)
        requires
            o > 0,
    ;
}

/// The square root of a finite number is finite.
proof fn lemma_root_is_finite(x: Binary64)
    requires
        x.finite(),
        x.value() >= binary64::one(),
    ensures
        x.sqrt().finite(),
        !x.sqrt().nan(),
{
    let o = binary64::one();
    lemma_pow2_pos(1074);
    grid::lemma_units_small(0);
    let v = grid::units(x.magnitude());
    precision::lemma_units_natural(x.magnitude());
    let n = v * o;
    crate::laws::lemma_root_exists(n);
    let r = grid::rounded_root(n);
    Binary64::lemma_pack(false, r);
    if r > x.magnitude() {
        let m = x.magnitude();
        grid::lemma_units_increase(m, r);
        if m < r - 1 {
            grid::lemma_units_increase(m, r - 1);
        }
        let below = grid::units(r - 1) + grid::units(r);
        assert(below * below > 4 * n) by (nonlinear_arith)
            requires
                below > 2 * v,
                v >= o,
                o >= 1,
                n == v * o,
        ;
    }
}

/// The interval reaches 1.96 standard errors to either side of the simulated price, up
/// to rounding.
#[verifier::rlimit(40)]
pub proof fn lemma_interval_width(
    option: EuropeanOption,
    prices: Seq<Binary64>,
    ln_moneyness: Binary64,
    discount: Binary64,
    gauss1: Binary64,
    gauss2: Binary64,
)
    requires
        ({
            let result = option.spec_price_option(prices, ln_moneyness, discount, gauss1, gauss2);
            result.ci_low.finite() && result.ci_high.finite()
        }),
    ensures
        ({
            let result = option.spec_price_option(prices, ln_moneyness, discount, gauss1, gauss2);
            let (price, error) = (result.mc_price.value(), result.std_error.value());
            let slack = 100 * abs(price) + 800 * abs(error) + 400 * grid::BINADE;
            &&& precision::SHARE * abs(100 * (result.ci_high.value() - price) - 196 * error)
                <= slack
            &&& precision::SHARE * abs(100 * (price - result.ci_low.value()) - 196 * error)
                <= slack
        }),
{
    let payoffs = option.spec_payoffs(prices);
    let n = Binary64::from_u64(prices.len() as u64);
    lemma_width(
        discount.mul(stats::mean(payoffs)),
        discount.mul(stats::std_dev(payoffs)).div(n.sqrt()),
    );
}

proof fn lemma_width(p: Binary64, e: Binary64)
    requires
        p.sub(Binary64::ratio(196, 100).mul(e)).finite(),
        p.add(Binary64::ratio(196, 100).mul(e)).finite(),
    ensures
        ({
            let m = Binary64::ratio(196, 100).mul(e);
            let slack = 100 * abs(p.value()) + 800 * abs(e.value()) + 400 * grid::BINADE;
            &&& precision::SHARE * abs(100 * (p.add(m).value() - p.value()) - 196 * e.value())
                <= slack
            &&& precision::SHARE * abs(100 * (p.value() - p.sub(m).value()) - 196 * e.value())
                <= slack
        }),
{
    let o = binary64::one();
    let r = Binary64::ratio(196, 100);
    let m = r.mul(e);
    lemma_pow2_pos(1074);
    lemma2_to64();
    lemma2_to64_rest();
    lemma_pow2_strictly_increases(63, 1074);
    crate::interval::lemma_tick(10);
    crate::interval::lemma_within_ratio(196, 100, 10, 2007, 2008);
    sums::lemma_finite_addends(p, m);
    scale::lemma_finite_factors(r, e);
    grid::lemma_rounded(196 * o, 100);
    Binary64::lemma_pack(false, grid::rounded(196 * o, 100));
    precision::lemma_rounding_error(196 * o, 100);
    precision::lemma_mul_error(r, e);
    precision::lemma_add_error(p, m);
    precision::lemma_sub_error(p, m);
    lemma_margin(o, r.value(), e.value(), m.value());
}

proof fn lemma_margin(o: int, r: int, e: int, m: int)
    requires
        o >= 1,
        0 <= r <= 2 * o,
        precision::SHARE * abs(196 * o - 100 * r) <= 196 * o,
        precision::SHARE * abs(o * m - r * e) <= abs(r * e) + grid::BINADE * o,
    ensures
        precision::SHARE * abs(100 * m - 196 * e) <= 396 * abs(e) + 100 * grid::BINADE,
        abs(m) <= 3 * abs(e) + 1,
{
    let h = precision::SHARE as int;
    let b = grid::BINADE as int;
    let a = abs(e) as int;
    let re = r * e;
    let oa = o * a;
    assert(abs(re) <= 2 * oa) by (nonlinear_arith)
        requires
            re == r * e,
            oa == o * a,
            0 <= r <= 2 * o,
            a == (if e < 0 { -e } else { e }),
    ;
    let d = 196 * o - 100 * r;
    let f = abs(d) as int;
    assert(e * d == 196 * (o * e) - 100 * re && abs(e * d) == a * f) by (nonlinear_arith)
        requires
            d == 196 * o - 100 * r,
            re == r * e,
            a == (if e < 0 { -e } else { e }),
            f == (if d < 0 { -d } else { d }),
    ;
    assert(h * (a * f) <= 196 * oa) by (nonlinear_arith)
        requires
            h * f <= 196 * o,
            oa == o * a,
            0 <= a,
    ;
    let z = 100 * m - 196 * e;
    assert(o * z == 100 * (o * m) - 196 * (o * e)) by (nonlinear_arith)
        requires
            z == 100 * m - 196 * e,
    ;
    let az = abs(z) as int;
    assert(abs(o * z) == o * az) by (nonlinear_arith)
        requires
            o >= 1,
            az == (if z < 0 { -z } else { z }),
    ;
    assert(h * (o * az) <= 396 * oa + 100 * (b * o));
    assert(h * az <= 396 * a + 100 * b) by (nonlinear_arith)
        requires
            h * (o * az) <= 396 * (o * a) + 100 * (b * o),
            o >= 1,
    ;
}

/// The spread of the logarithm over the life of the option is its volatility times the
/// square root of the years, up to rounding.
pub open spec fn spread(option: EuropeanOption) -> Binary64 {
    option.sigma.mul(option.t.sqrt())
}

/// The first argument of the distribution function, times the spread, is the logarithm
/// of the moneyness and (r + sigma^2 / 2) t, up to rounding. Both sides are taken twice,
/// and in units of one to the third.
#[verifier::rlimit(40)]
pub proof fn lemma_d1(option: EuropeanOption, ln_moneyness: Binary64)
    requires
        spread(option).finite(),
        !spread(option).zero(),
        option.d1(ln_moneyness).finite(),
    ensures
        ({
            let o = binary64::one();
            let b = grid::BINADE as int;
            let (r, v, t, l) = (
                option.r.value(),
                option.sigma.value(),
                option.t.value(),
                ln_moneyness.value(),
            );
            let root = option.t.sqrt().value();
            let w = spread(option).value();
            let d = option.d1(ln_moneyness).value();
            let size = o * abs(r) + v * v + b * o;
            &&& precision::SHARE * abs(
                2 * (o * (w * d)) - (2 * ((o * o) * l) + (2 * (o * r) + v * v) * t),
            ) <= 6 * ((o * o) * abs(l)) + 2 * (b * (o * abs(w))) + 102 * (abs(t) * size) + 8 * (b
                * (o * o))
            &&& precision::SHARE * abs(o * w - v * root) <= abs(v * root) + b * o
            &&& b * abs(root * root - o * t) <= 4 * (o * t)
        }),
{
    let o = binary64::one();
    let q = Binary64::ratio(1, 2).mul(option.sigma).mul(option.sigma);
    let s = option.r.add(q);
    let u = s.mul(option.t);
    let num = ln_moneyness.add(u);
    let w = spread(option);
    lemma_pow2_pos(1074);
    model::lemma_one_is_large();
    model::lemma_vol_term(option.sigma, option.r, option.t);
    Binary64::lemma_pack(num.negative() != w.negative(), grid::INF as int);
    assert(num.finite());
    sums::lemma_finite_addends(ln_moneyness, u);
    scale::lemma_finite_factors(s, option.t);
    sums::lemma_finite_addends(option.r, q);
    model::lemma_half_square(option.sigma);
    precision::lemma_add_error(option.r, q);
    precision::lemma_mul_error(s, option.t);
    precision::lemma_add_error(ln_moneyness, u);
    precision::lemma_div_error(num, w);
    let (r, v, t, l) = (
        option.r.value(),
        option.sigma.value(),
        option.t.value(),
        ln_moneyness.value(),
    );
    let (qv, sv, uv) = (q.value(), s.value(), u.value());
    assert((-sv) * t == -(sv * t) && o * (-uv) == -(o * uv)) by (nonlinear_arith);
    model::lemma_drift_bound(o, v, -r, t, qv, -sv, -uv);
    let (rate, growth) = (2 * (o * r) + v * v, 2 * (o * (o * uv)));
    assert(2 * (o * (-(o * uv))) == -growth) by (nonlinear_arith)
        requires
            growth == 2 * (o * (o * uv)),
    ;
    assert((2 * (o * (-r)) - v * v) * t == -(rate * t)) by (nonlinear_arith)
        requires
            rate == 2 * (o * r) + v * v,
    ;
    assert(v * v >= 0) by (nonlinear_arith);
    lemma_d1_bound(
        o,
        r,
        v * v,
        t,
        l,
        uv,
        num.value(),
        w.value(),
        option.d1(ln_moneyness).value(),
    );
}

#[verifier::rlimit(40)]
proof fn lemma_d1_bound(o: int, r: int, vv: int, t: int, l: int, u: int, num: int, w: int, d: int)
    requires
        0 < o,
        0 <= vv,
        precision::SHARE * abs(2 * (o * (o * u)) - (2 * (o * r) + vv) * t) <= 24 * (abs(t) * (o
            * abs(r) + vv + grid::BINADE * o)) + 2 * (grid::BINADE * (o * o)),
        precision::SHARE * abs(num - (l + u)) <= abs(l + u),
        precision::SHARE * abs(w * d - o * num) <= o * abs(num) + grid::BINADE * abs(w),
    ensures
        precision::SHARE * abs(2 * (o * (w * d)) - (2 * ((o * o) * l) + (2 * (o * r) + vv) * t))
            <= 6 * ((o * o) * abs(l)) + 2 * (grid::BINADE * (o * abs(w))) + 102 * (abs(t) * (o
            * abs(r) + vv + grid::BINADE * o)) + 8 * (grid::BINADE * (o * o)),
{
    let h = precision::SHARE as int;
    let b = grid::BINADE as int;
    let oo = o * o;
    let rate = 2 * (o * r) + vv;
    let size = o * abs(r) + vv + b * o;
    let ts = abs(t) * size;
    let boo = b * oo;
    let (oou, ool, oon) = (oo * u, oo * l, oo * num);
    assert(o * (o * u) == oou && 0 < oo && 0 <= boo) by (nonlinear_arith)
        requires
            oo == o * o,
            oou == oo * u,
            boo == b * oo,
            0 < o,
            0 <= b,
    ;
    assert(abs(rate * t) <= 2 * ts && 0 <= ts) by {
        let (ar, at) = (abs(r) as int, abs(t) as int);
        let oar = o * ar;
        assert(abs(rate) <= 2 * oar + vv && 0 <= oar && 0 <= b * o) by (nonlinear_arith)
            requires
                rate == 2 * (o * r) + vv,
                oar == o * ar,
                ar == (if r < 0 { -r } else { r }),
                0 < o,
                0 <= vv,
                0 <= b,
        ;
        assert(abs(rate * t) <= 2 * (at * size) && 0 <= at * size) by (nonlinear_arith)
            requires
                -(2 * size) <= rate <= 2 * size,
                0 <= size,
                at == (if t < 0 { -t } else { t }),
        ;
    }
    let e1 = w * d - o * num;
    let e2 = num - (l + u);
    let e3 = 2 * oou - rate * t;
    let (a1, a2) = (abs(e1) as int, abs(e2) as int);
    let x = l + u;
    assert(o * e1 == o * (w * d) - oon && oo * e2 == oon - ool - oou && oo * x == ool + oou)
        by (nonlinear_arith)
        requires
            e1 == w * d - o * num,
            e2 == num - (l + u),
            x == l + u,
            oo == o * o,
            oon == oo * num,
            ool == oo * l,
            oou == oo * u,
    ;
    let (ax, an, aw) = (abs(x) as int, abs(num) as int, abs(w) as int);
    let (ox, on, ow) = (oo * ax, oo * an, o * aw);
    assert(abs(o * e1) == o * a1 && abs(oo * e2) == oo * a2 && abs(ool) == oo * abs(l) && abs(
        oo * x,
    ) == ox && on <= 2 * ox) by (nonlinear_arith)
        requires
            0 < o,
            0 < oo,
            a1 == (if e1 < 0 { -e1 } else { e1 }),
            a2 == (if e2 < 0 { -e2 } else { e2 }),
            ax == (if x < 0 { -x } else { x }),
            ool == oo * l,
            ox == oo * ax,
            on == oo * an,
            an <= 2 * ax,
    ;
    assert(h * (o * a1) <= on + b * ow) by (nonlinear_arith)
        requires
            h * a1 <= o * an + b * aw,
            0 < o,
            on == oo * an,
            oo == o * o,
            ow == o * aw,
    ;
    assert(h * (oo * a2) <= ox) by (nonlinear_arith)
        requires
            h * a2 <= ax,
            0 < oo,
            ox == oo * ax,
    ;
    assert(abs(e3) <= 24 * ts + 2 * boo);
    assert(2 * ox <= 2 * (oo * abs(l)) + 26 * ts + 2 * boo);
}

/// The second argument of the distribution function is the first one less the spread, up
/// to rounding.
pub proof fn lemma_d2(option: EuropeanOption, ln_moneyness: Binary64)
    requires
        option.d2(ln_moneyness).finite(),
    ensures
        ({
            let exact = option.d1(ln_moneyness).value() - spread(option).value();
            precision::SHARE * abs(option.d2(ln_moneyness).value() - exact) <= abs(exact)
        }),
{
    let (d, w) = (option.d1(ln_moneyness), spread(option));
    Binary64::lemma_pack(!w.negative(), w.magnitude());
    sums::lemma_finite_addends(d, w.neg());
    precision::lemma_sub_error(d, w);
}

/// The closed form of a call is the stock price times the distribution function at d1,
/// less the discounted strike times that at d2; that of a put is the discounted strike
/// times the distribution function at -d2, less the stock price times that at -d1; up to
/// rounding.
#[verifier::rlimit(40)]
pub proof fn lemma_closed_form_value(
    option: EuropeanOption,
    ln_moneyness: Binary64,
    discount: Binary64,
    gauss1: Binary64,
    gauss2: Binary64,
)
    requires
        option.black_scholes_price(ln_moneyness, discount, gauss1, gauss2).finite(),
    ensures
        ({
            let o = binary64::one();
            let (d1, d2) = (option.d1(ln_moneyness), option.d2(ln_moneyness));
            let paid = option.k.mul(discount).value();
            let stock = option.s0.value();
            let price = option.black_scholes_price(ln_moneyness, discount, gauss1, gauss2).value();
            let (gained, given) = match option.option_type {
                OptionType::Call => (
                    stock * pricing::norm_cdf(d1, gauss1).value(),
                    paid * pricing::norm_cdf(d2, gauss2).value(),
                ),
                OptionType::Put => (
                    paid * pricing::norm_cdf(d2.neg(), gauss2).value(),
                    stock * pricing::norm_cdf(d1.neg(), gauss1).value(),
                ),
            };
            precision::SHARE * abs(o * price - (gained - given)) <= 4 * (abs(gained) + abs(given)
                + grid::BINADE * o)
        }),
{
    let (d1, d2) = (option.d1(ln_moneyness), option.d2(ln_moneyness));
    let paid = option.k.mul(discount);
    match option.option_type {
        OptionType::Call => {
            lemma_difference_of_products(
                option.s0,
                pricing::norm_cdf(d1, gauss1),
                paid,
                pricing::norm_cdf(d2, gauss2),
            );
        },
        OptionType::Put => {
            lemma_difference_of_products(
                paid,
                pricing::norm_cdf(d2.neg(), gauss2),
                option.s0,
                pricing::norm_cdf(d1.neg(), gauss1),
            );
        },
    }
}

proof fn lemma_difference_of_products(a: Binary64, m: Binary64, b: Binary64, n: Binary64)
    requires
        a.mul(m).sub(b.mul(n)).finite(),
    ensures
        ({
            let o = binary64::one();
            let (x, y) = (a.value() * m.value(), b.value() * n.value());
            precision::SHARE * abs(o * a.mul(m).sub(b.mul(n)).value() - (x - y)) <= 4 * (abs(x)
                + abs(y) + grid::BINADE * o)
        }),
{
    let o = binary64::one();
    let (p, q) = (a.mul(m), b.mul(n));
    lemma_pow2_pos(1074);
    Binary64::lemma_pack(!q.negative(), q.magnitude());
    sums::lemma_finite_addends(p, q.neg());
    scale::lemma_finite_factors(a, m);
    scale::lemma_finite_factors(b, n);
    precision::lemma_mul_error(a, m);
    precision::lemma_mul_error(b, n);
    precision::lemma_sub_error(p, q);
    let h = precision::SHARE as int;
    let (x, y) = (a.value() * m.value(), b.value() * n.value());
    let (u, v, z) = (p.value(), q.value(), p.sub(q).value());
    let d = u - v;
    let e = z - d;
    let (ad, ae) = (abs(d) as int, abs(e) as int);
    assert(o * e == o * z - o * u + o * v && o * d == o * u - o * v && abs(o * e) == o * ae && abs(
        o * d,
    ) == o * ad) by (nonlinear_arith)
        requires
            e == z - d,
            d == u - v,
            0 < o,
            ad == (if d < 0 { -d } else { d }),
            ae == (if e < 0 { -e } else { e }),
    ;
    assert(h * (o * ae) <= o * ad) by (nonlinear_arith)
        requires
            h * ae <= ad,
            0 < o,
    ;
    assert(o <= grid::BINADE * o) by (nonlinear_arith)
        requires
            0 < o,
            grid::BINADE >= 1,
    ;
}

} // verus!
