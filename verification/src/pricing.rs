//! Pricing of European options.
//!
//! The natural logarithm and the exponential function are computed elsewhere
//! and come in as numbers; what they are to be applied to is computed here.
use crate::args::{Args, OptionType};
use crate::binary64;
use crate::binary64::Binary64;
use crate::grid;
use crate::laws;
use crate::path;
use crate::scale;
use crate::stats;
use vstd::arithmetic::power2::*;
use vstd::prelude::*;

verus! {

/// What pricing an option by simulation comes to.
#[derive(Clone, Copy, Debug)]
pub struct OptionPricingResult {
    pub mc_price: Binary64,
    pub std_error: Binary64,
    pub ci_low: Binary64,
    pub ci_high: Binary64,
    pub black_scholes_price: Binary64,
}

/// A European option on a stock, and the market it is priced in.
#[derive(Clone, Copy, Debug)]
pub struct EuropeanOption {
    /// Price of the stock now.
    pub s0: Binary64,
    /// Strike price.
    pub k: Binary64,
    /// Risk-free rate.
    pub r: Binary64,
    /// Volatility.
    pub sigma: Binary64,
    /// Years to expiry.
    pub t: Binary64,
    pub option_type: OptionType,
}

/// The polynomial of Abramowitz and Stegun 7.1.26, in t.
pub open spec fn spec_erf_polynomial(t: Binary64) -> Binary64 {
    let a1 = Binary64::ratio(254829592, 1000000000);
    let a2 = Binary64::ratio(284496736, 1000000000).neg();
    let a3 = Binary64::ratio(1421413741, 1000000000);
    let a4 = Binary64::ratio(1453152027, 1000000000).neg();
    let a5 = Binary64::ratio(1061405429, 1000000000);
    a5.mul(t).add(a4).mul(t).add(a3).mul(t).add(a2).mul(t).add(a1).mul(t)
}

/// The polynomial of Abramowitz and Stegun 7.1.26, in t.
#[verifier::when_used_as_spec(spec_erf_polynomial)]
pub fn erf_polynomial(t: Binary64) -> (y: Binary64)
    ensures
        y == spec_erf_polynomial(t),
{
    let a1: Binary64 = Binary64::ratio(254829592, 1000000000);
    let a2: Binary64 = Binary64::ratio(284496736, 1000000000).neg();
    let a3: Binary64 = Binary64::ratio(1421413741, 1000000000);
    let a4: Binary64 = Binary64::ratio(1453152027, 1000000000).neg();
    let a5: Binary64 = Binary64::ratio(1061405429, 1000000000);
    a5.mul(t).add(a4).mul(t).add(a3).mul(t).add(a2).mul(t).add(a1).mul(t)
}

/// What the exponential function is applied to for the error function of `x`: -x^2.
pub open spec fn spec_erf_exponent(x: Binary64) -> Binary64 {
    x.abs().neg().mul(x.abs())
}

/// What the exponential function is applied to for the error function of `x`.
#[verifier::when_used_as_spec(spec_erf_exponent)]
pub fn erf_exponent(x: Binary64) -> (e: Binary64)
    ensures
        e == spec_erf_exponent(x),
{
    x.abs().neg().mul(x.abs())
}

/// The error function of `x`, by Abramowitz and Stegun 7.1.26 (maximal absolute
/// error about 1.5e-7), where `gauss` is the exponential of `erf_exponent(x)`.
pub open spec fn spec_erf(x: Binary64, gauss: Binary64) -> Binary64 {
    let one = Binary64::from_u64(1);
    let sign = if x.lt(Binary64::from_u64(0)) {
        one.neg()
    } else {
        one
    };
    let t = one.div(one.add(Binary64::ratio(3275911, 10000000).mul(x.abs())));
    sign.mul(one.sub(erf_polynomial(t).mul(gauss)))
}

/// The error function of `x`, where `gauss` is the exponential of `erf_exponent(x)`.
#[verifier::when_used_as_spec(spec_erf)]
pub fn erf(x: Binary64, gauss: Binary64) -> (y: Binary64)
    ensures
        y == spec_erf(x, gauss),
{
    let one: Binary64 = Binary64::from_u64(1);
    let sign: Binary64 = if x.lt(Binary64::from_u64(0)) {
        one.neg()
    } else {
        one
    };
    let t: Binary64 = one.div(one.add(Binary64::ratio(3275911, 10000000).mul(x.abs())));
    sign.mul(one.sub(erf_polynomial(t).mul(gauss)))
}

/// What the error function is applied to for the normal distribution at `x`.
pub open spec fn spec_norm_argument(x: Binary64) -> Binary64 {
    x.div(Binary64::from_u64(2).sqrt())
}

/// What the error function is applied to for the normal distribution at `x`.
#[verifier::when_used_as_spec(spec_norm_argument)]
pub fn norm_argument(x: Binary64) -> (a: Binary64)
    ensures
        a == spec_norm_argument(x),
{
    x.div(Binary64::from_u64(2).sqrt())
}

/// The standard normal distribution function at `x`, where `gauss` is the
/// exponential of `erf_exponent(norm_argument(x))`.
pub open spec fn spec_norm_cdf(x: Binary64, gauss: Binary64) -> Binary64 {
    Binary64::ratio(1, 2).mul(Binary64::from_u64(1).add(erf(norm_argument(x), gauss)))
}

/// The standard normal distribution function at `x`, where `gauss` is the
/// exponential of `erf_exponent(norm_argument(x))`.
#[verifier::when_used_as_spec(spec_norm_cdf)]
pub fn norm_cdf(x: Binary64, gauss: Binary64) -> (y: Binary64)
    ensures
        y == spec_norm_cdf(x, gauss),
{
    Binary64::ratio(1, 2).mul(Binary64::from_u64(1).add(erf(norm_argument(x), gauss)))
}

/// The option that a run prices: the one struck at the strike price, on the
/// simulated stock, expiring at the horizon. There is none without a strike.
pub open spec fn spec_option_of(args: Args) -> Option<EuropeanOption> {
    match args.strike {
        Some(k) => Some(
            EuropeanOption {
                s0: args.initial_price,
                k,
                r: args.risk_free_rate,
                sigma: args.volatility,
                t: path::years(args.days),
                option_type: args.option_type,
            },
        ),
        None => None,
    }
}

/// The option that a run prices, if any.
pub fn option_of(args: &Args) -> (option: Option<EuropeanOption>)
    ensures
        option == spec_option_of(*args),
        option is Some == args.strike is Some,
        option matches Some(o) ==> o.t == path::years(args.days),
{
    match args.strike {
        Some(k) => Some(
            EuropeanOption {
                s0: args.initial_price,
                k,
                r: args.risk_free_rate,
                sigma: args.volatility,
                t: path::years(args.days),
                option_type: args.option_type,
            },
        ),
        None => None,
    }
}

impl EuropeanOption {
    /// What the logarithm is applied to in the closed form.
    pub open spec fn spec_moneyness(self) -> Binary64 {
        self.s0.div(self.k)
    }

    /// What the exponential function is applied to for the discount factor.
    pub open spec fn spec_discount_exponent(self) -> Binary64 {
        self.r.neg().mul(self.t)
    }

    /// The first argument of the distribution function in the closed form, where
    /// `ln_moneyness` is the logarithm of the moneyness.
    pub open spec fn spec_d1(self, ln_moneyness: Binary64) -> Binary64 {
        let half_square = Binary64::ratio(1, 2).mul(self.sigma).mul(self.sigma);
        ln_moneyness.add(self.r.add(half_square).mul(self.t)).div(self.sigma.mul(self.t.sqrt()))
    }

    /// The second argument of the distribution function in the closed form.
    pub open spec fn spec_d2(self, ln_moneyness: Binary64) -> Binary64 {
        self.spec_d1(ln_moneyness).sub(self.sigma.mul(self.t.sqrt()))
    }

    /// What the logarithm is applied to in the closed form.
    #[verifier::when_used_as_spec(spec_moneyness)]
    pub fn moneyness(self) -> (x: Binary64)
        ensures
            x == self.spec_moneyness(),
    {
        self.s0.div(self.k)
    }

    /// What the exponential function is applied to for the discount factor.
    #[verifier::when_used_as_spec(spec_discount_exponent)]
    pub fn discount_exponent(self) -> (x: Binary64)
        ensures
            x == self.spec_discount_exponent(),
    {
        self.r.neg().mul(self.t)
    }

    /// The first argument of the distribution function in the closed form.
    #[verifier::when_used_as_spec(spec_d1)]
    pub fn d1(self, ln_moneyness: Binary64) -> (d: Binary64)
        ensures
            d == self.spec_d1(ln_moneyness),
    {
        let half_square: Binary64 = Binary64::ratio(1, 2).mul(self.sigma).mul(self.sigma);
        ln_moneyness.add(self.r.add(half_square).mul(self.t)).div(self.sigma.mul(self.t.sqrt()))
    }

    /// The second argument of the distribution function in the closed form.
    #[verifier::when_used_as_spec(spec_d2)]
    pub fn d2(self, ln_moneyness: Binary64) -> (d: Binary64)
        ensures
            d == self.spec_d2(ln_moneyness),
    {
        self.d1(ln_moneyness).sub(self.sigma.mul(self.t.sqrt()))
    }

    /// The closed-form Black-Scholes price. `ln_moneyness` is the logarithm of
    /// the moneyness, `discount` the exponential of the discount exponent,
    /// `gauss1` and `gauss2` those of `erf_exponent(norm_argument(d))` for d1
    /// and d2, which is the same for -d1 and -d2.
    pub open spec fn spec_black_scholes_price(
        self,
        ln_moneyness: Binary64,
        discount: Binary64,
        gauss1: Binary64,
        gauss2: Binary64,
    ) -> Binary64 {
        let d1 = self.d1(ln_moneyness);
        let d2 = self.d2(ln_moneyness);
        let paid = self.k.mul(discount);
        match self.option_type {
            OptionType::Call => self.s0.mul(norm_cdf(d1, gauss1)).sub(
                paid.mul(norm_cdf(d2, gauss2)),
            ),
            OptionType::Put => paid.mul(norm_cdf(d2.neg(), gauss2)).sub(
                self.s0.mul(norm_cdf(d1.neg(), gauss1)),
            ),
        }
    }

    /// The closed-form Black-Scholes price, to set beside the simulated one.
    #[verifier::when_used_as_spec(spec_black_scholes_price)]
    pub fn black_scholes_price(
        self,
        ln_moneyness: Binary64,
        discount: Binary64,
        gauss1: Binary64,
        gauss2: Binary64,
    ) -> (price: Binary64)
        ensures
            price == self.spec_black_scholes_price(ln_moneyness, discount, gauss1, gauss2),
    {
        let d1: Binary64 = self.d1(ln_moneyness);
        let d2: Binary64 = self.d2(ln_moneyness);
        let paid: Binary64 = self.k.mul(discount);
        match self.option_type {
            OptionType::Call => self.s0.mul(norm_cdf(d1, gauss1)).sub(
                paid.mul(norm_cdf(d2, gauss2)),
            ),
            OptionType::Put => paid.mul(norm_cdf(d2.neg(), gauss2)).sub(
                self.s0.mul(norm_cdf(d1.neg(), gauss1)),
            ),
        }
    }

    /// What the option pays at expiry where the stock stands at `s`: what the
    /// exercise gains, or nothing where it gains nothing.
    pub open spec fn spec_payoff(self, s: Binary64) -> Binary64 {
        let gain = match self.option_type {
            OptionType::Call => s.sub(self.k),
            OptionType::Put => self.k.sub(s),
        };
        if Binary64::from_u64(0).lt(gain) {
            gain
        } else {
            Binary64::from_u64(0)
        }
    }

    /// What the option pays at expiry where the stock stands at `s`.
    #[verifier::when_used_as_spec(spec_payoff)]
    pub fn payoff(self, s: Binary64) -> (x: Binary64)
        ensures
            x == self.spec_payoff(s),
    {
        let gain: Binary64 = match self.option_type {
            OptionType::Call => s.sub(self.k),
            OptionType::Put => self.k.sub(s),
        };
        if Binary64::from_u64(0).lt(gain) {
            gain
        } else {
            Binary64::from_u64(0)
        }
    }

    /// The payoff at each final price.
    pub open spec fn spec_payoffs(self, prices: Seq<Binary64>) -> Seq<Binary64> {
        prices.map_values(|s: Binary64| self.payoff(s))
    }

    /// The payoff at each final price.
    pub fn payoffs(self, final_prices: &[Binary64]) -> (r: Vec<Binary64>)
        ensures
            r@ == self.spec_payoffs(final_prices@),
    {
        let n: usize = final_prices.len();
        let mut r: Vec<Binary64> = Vec::with_capacity(n);
        let mut i: usize = 0;
        while i < n
            invariant
                n == final_prices@.len(),
                i <= n,
                r@ == self.spec_payoffs(final_prices@.take(i as int)),
            decreases n - i,
        {
            r.push(self.payoff(final_prices[i]));
            proof {
                assert(r@ =~= self.spec_payoffs(final_prices@.take(i + 1)));
            }
            i = i + 1;
        }
        proof {
            assert(final_prices@.take(i as int) =~= final_prices@);
        }
        r
    }

    /// The discounted mean payoff over the final prices, its standard error by
    /// the central limit theorem, the interval of 1.96 standard errors on either
    /// side, and the closed-form price.
    pub open spec fn spec_price_option(
        self,
        prices: Seq<Binary64>,
        ln_moneyness: Binary64,
        discount: Binary64,
        gauss1: Binary64,
        gauss2: Binary64,
    ) -> OptionPricingResult {
        let payoffs = self.spec_payoffs(prices);
        let n = Binary64::from_u64(prices.len() as u64);
        let mc_price = discount.mul(stats::mean(payoffs));
        let std_error = discount.mul(stats::std_dev(payoffs)).div(n.sqrt());
        let margin = Binary64::ratio(196, 100).mul(std_error);
        OptionPricingResult {
            mc_price,
            std_error,
            ci_low: mc_price.sub(margin),
            ci_high: mc_price.add(margin),
            black_scholes_price: self.black_scholes_price(ln_moneyness, discount, gauss1, gauss2),
        }
    }

    /// Prices the option from final prices simulated under the risk-neutral
    /// measure, and by the closed form. The logarithm and the exponentials are
    /// those that the closed form takes.
    pub fn price_option(
        self,
        final_prices: &[Binary64],
        ln_moneyness: Binary64,
        discount: Binary64,
        gauss1: Binary64,
        gauss2: Binary64,
    ) -> (result: OptionPricingResult)
        ensures
            result == self.spec_price_option(
                final_prices@,
                ln_moneyness,
                discount,
                gauss1,
                gauss2,
            ),
            result.black_scholes_price == self.spec_black_scholes_price(
                ln_moneyness,
                discount,
                gauss1,
                gauss2,
            ),
    {
        let payoffs: Vec<Binary64> = self.payoffs(final_prices);
        let n: Binary64 = Binary64::from_u64(payoffs.len() as u64);
        let mean_payoff: Binary64 = stats::mean_of(payoffs.as_slice());
        let payoff_std_dev: Binary64 = stats::std_dev_of(payoffs.as_slice(), mean_payoff);
        let mc_price: Binary64 = discount.mul(mean_payoff);
        let std_error: Binary64 = discount.mul(payoff_std_dev).div(n.sqrt());
        let margin: Binary64 = Binary64::ratio(196, 100).mul(std_error);
        OptionPricingResult {
            mc_price,
            std_error,
            ci_low: mc_price.sub(margin),
            ci_high: mc_price.add(margin),
            black_scholes_price: self.black_scholes_price(ln_moneyness, discount, gauss1, gauss2),
        }
    }
}

/// The error function is odd: away from zero, the value at `-x` is that at `x`
/// with the other sign.
pub proof fn lemma_erf_odd(x: Binary64, gauss: Binary64)
    requires
        !x.nan(),
        !x.zero(),
        !erf(x, gauss).nan(),
    ensures
        erf(x.neg(), gauss) == erf(x, gauss).neg(),
{
    let one = Binary64::from_u64(1);
    Binary64::lemma_from_zero();
    Binary64::lemma_from_u64_exact(1);
    Binary64::lemma_pack(!x.negative(), x.magnitude());
    assert(x.neg().abs() == x.abs());
    let t = one.div(one.add(Binary64::ratio(3275911, 10000000).mul(x.abs())));
    let y = one.sub(erf_polynomial(t).mul(gauss));
    assert(!y.nan());
    laws::lemma_mul_one(y);
    Binary64::lemma_pack(!y.negative(), y.magnitude());
    assert(y.neg().neg() == y);
}

/// What the exponential function is applied to is the same for `x` and `-x`.
pub proof fn lemma_exponent_even(x: Binary64)
    ensures
        erf_exponent(norm_argument(x.neg())) == erf_exponent(norm_argument(x)),
{
    let root = Binary64::from_u64(2).sqrt();
    let a = norm_argument(x);
    Binary64::lemma_pack(!x.negative(), x.magnitude());
    if !x.nan() {
        lemma_norm_argument(x);
        laws::lemma_div_neg(x, root);
        Binary64::lemma_pack(!a.negative(), a.magnitude());
        assert(a.neg().abs() == a.abs());
    }
}

/// The error function is applied to a number for every number, and to zero for
/// zero only; the sign stays.
pub proof fn lemma_norm_argument(x: Binary64)
    requires
        !x.nan(),
    ensures
        !norm_argument(x).nan(),
        norm_argument(x).zero() == x.zero(),
        norm_argument(x).negative() == x.negative(),
{
    let root = Binary64::from_u64(2).sqrt();
    lemma_root_of_two();
    grid::lemma_units_small(0);
    grid::lemma_units_increase(0, root.magnitude());
    let o = binary64::one();
    let w = grid::units(x.magnitude());
    let (u, v) = (w * o, grid::units(root.magnitude()));
    grid::lemma_rounded(u, v);
    Binary64::lemma_pack(x.negative() != root.negative(), grid::rounded(u, v));
    Binary64::lemma_pack(x.negative() != root.negative(), grid::INF as int);
    if x.zero() {
        grid::lemma_rounded_exact(0, v);
        assert(0 * o == 0 && v * 0 == 0) by (nonlinear_arith);
    } else {
        grid::lemma_units_increase(0, x.magnitude());
        grid::lemma_units_small(1);
        assert(v * (0 + 1) < 2 * (w * o)) by (nonlinear_arith)
            requires
                v < 2 * o,
                1 <= w,
                0 < o,
        ;
        lemma_pow2_pos(1074);
        assert(grid::reaches(u, v, 1));
    }
}

/// The square root of two is a positive number below two.
pub(crate) proof fn lemma_root_of_two()
    ensures
        Binary64::from_u64(2).sqrt().finite(),
        !Binary64::from_u64(2).sqrt().zero(),
        !Binary64::from_u64(2).sqrt().negative(),
        grid::units(Binary64::from_u64(2).sqrt().magnitude()) < 2 * binary64::one(),
{
    let two = Binary64::from_u64(2);
    Binary64::lemma_from_u64_exact(2);
    let o = binary64::one();
    lemma_pow2_pos(1074);
    grid::lemma_units_small(0);
    assert(two.magnitude() > 0);
    let n = grid::units(two.magnitude()) * o;
    laws::lemma_root_exists(n);
    let r = grid::rounded_root(n);
    Binary64::lemma_pack(false, r);
    assert(n == 2 * (o * o)) by (nonlinear_arith)
        requires
            n == (2 * o) * o,
    ;
    if r == 0 {
        grid::lemma_units_small(1);
        assert(1 * 1 < 4 * n) by (nonlinear_arith)
            requires
                n == 2 * (o * o),
                o >= 1,
        ;
        assert(grid::root_reaches(n, 1));
    }
    // one and a half is above it
    let c = grid::lemma_multiple_on_grid(3, 1073);
    lemma_pow2_unfold(1074);
    if c < r {
        grid::lemma_units_increase(c, r);
        if c < r - 1 {
            grid::lemma_units_increase(c, r - 1);
        }
        let b = grid::units(r - 1) + grid::units(r);
        assert(b * b > 4 * n) by (nonlinear_arith)
            requires
                b >= 3 * o,
                n == 2 * (o * o),
                o >= 1,
        ;
    } else if r < c {
        grid::lemma_units_increase(r, c);
    }
}

/// The standard normal distribution function at `x`, as it comes out with this
/// exponential function.
pub open spec fn norm_cdf_with(exp: spec_fn(Binary64) -> Binary64, x: Binary64) -> Binary64 {
    norm_cdf(x, exp(erf_exponent(norm_argument(x))))
}

impl EuropeanOption {
    /// The model: where the numbers that come in are those that the exponential
    /// function `exp` and the logarithm `ln` give, the simulated price is the mean
    /// payoff, discounted by exp(-r t), and the closed-form price is that of Black
    /// and Scholes, with d1 = (ln(s0 / k) + (r + sigma^2 / 2) t) / (sigma sqrt(t))
    /// and d2 = d1 - sigma sqrt(t).
    pub proof fn lemma_pricing_model(
        self,
        prices: Seq<Binary64>,
        exp: spec_fn(Binary64) -> Binary64,
        ln: spec_fn(Binary64) -> Binary64,
    )
        ensures
            ({
                let spread = self.sigma.mul(self.t.sqrt());
                let half_square = Binary64::ratio(1, 2).mul(self.sigma).mul(self.sigma);
                let d1 = ln(self.s0.div(self.k)).add(self.r.add(half_square).mul(self.t)).div(
                    spread,
                );
                let d2 = d1.sub(spread);
                let discount = exp(self.r.neg().mul(self.t));
                let result = self.spec_price_option(
                    prices,
                    ln(self.moneyness()),
                    exp(self.discount_exponent()),
                    exp(erf_exponent(norm_argument(self.d1(ln(self.moneyness()))))),
                    exp(erf_exponent(norm_argument(self.d2(ln(self.moneyness()))))),
                );
                &&& result.mc_price == discount.mul(stats::mean(self.spec_payoffs(prices)))
                &&& result.black_scholes_price == match self.option_type {
                    OptionType::Call => self.s0.mul(norm_cdf_with(exp, d1)).sub(
                        self.k.mul(discount).mul(norm_cdf_with(exp, d2)),
                    ),
                    OptionType::Put => self.k.mul(discount).mul(norm_cdf_with(exp, d2.neg())).sub(
                        self.s0.mul(norm_cdf_with(exp, d1.neg())),
                    ),
                }
            }),
    {
        lemma_exponent_even(self.d1(ln(self.moneyness())));
        lemma_exponent_even(self.d2(ln(self.moneyness())));
    }

    /// The option on twice the stock at twice the strike.
    pub open spec fn doubled(self) -> EuropeanOption {
        EuropeanOption { s0: scale::twice(self.s0), k: scale::twice(self.k), ..self }
    }

    /// The closed form scales: twice the stock price and twice the strike make
    /// twice the option price, as long as nothing overflows and no product loses
    /// anything to underflow. The logarithm and the exponentials stay as they are,
    /// since what they are applied to does.
    pub proof fn lemma_closed_form_scales(
        self,
        ln_moneyness: Binary64,
        discount: Binary64,
        gauss1: Binary64,
        gauss2: Binary64,
    )
        requires
            ({
                let put = self.option_type == OptionType::Put;
                let (d1, d2) = (self.d1(ln_moneyness), self.d2(ln_moneyness));
                let n1 = norm_cdf(if put { d1.neg() } else { d1 }, gauss1);
                let n2 = norm_cdf(if put { d2.neg() } else { d2 }, gauss2);
                let paid = self.k.mul(discount);
                let two = self.doubled();
                &&& two.s0.finite() && two.s0.mul(n1).finite()
                &&& two.k.mul(discount).finite() && two.k.mul(discount).mul(n2).finite()
                &&& two.black_scholes_price(ln_moneyness, discount, gauss1, gauss2).finite()
                &&& scale::product_kept(self.s0, n1)
                &&& scale::product_kept(self.k, discount)
                &&& scale::product_kept(paid, n2)
            }),
        ensures
            self.doubled().moneyness() == self.moneyness(),
            self.doubled().discount_exponent() == self.discount_exponent(),
            self.doubled().d1(ln_moneyness) == self.d1(ln_moneyness),
            self.doubled().d2(ln_moneyness) == self.d2(ln_moneyness),
            self.doubled().black_scholes_price(ln_moneyness, discount, gauss1, gauss2)
                == scale::twice(self.black_scholes_price(ln_moneyness, discount, gauss1, gauss2)),
    {
        let put = self.option_type == OptionType::Put;
        let (d1, d2) = (self.d1(ln_moneyness), self.d2(ln_moneyness));
        let n1 = norm_cdf(if put { d1.neg() } else { d1 }, gauss1);
        let n2 = norm_cdf(if put { d2.neg() } else { d2 }, gauss2);
        let paid = self.k.mul(discount);
        scale::lemma_finite_factors(Binary64::from_u64(2), self.s0);
        scale::lemma_finite_factors(self.doubled().s0, n1);
        scale::lemma_finite_factors(self.doubled().k, discount);
        scale::lemma_finite_factors(Binary64::from_u64(2), self.k);
        scale::lemma_finite_factors(self.doubled().k.mul(discount), n2);
        scale::lemma_twice_div(self.s0, self.k);
        scale::lemma_twice_mul(self.s0, n1);
        scale::lemma_twice_mul(self.k, discount);
        scale::lemma_twice_mul(paid, n2);
        if put {
            scale::lemma_twice_sub(paid.mul(n2), self.s0.mul(n1));
        } else {
            scale::lemma_twice_sub(self.s0.mul(n1), paid.mul(n2));
        }
    }

    /// A payoff is a number, and never negative.
    pub proof fn lemma_payoff_not_negative(self, s: Binary64)
        ensures
            !self.payoff(s).nan(),
            !self.payoff(s).negative(),
    {
        Binary64::lemma_from_u64_exact(0);
    }

    /// A call pays no less where the stock stands higher, and a put no more.
    pub proof fn lemma_payoff_monotone(self, s: Binary64, t: Binary64)
        requires
            !s.nan(),
            !t.nan(),
            s.rank() <= t.rank(),
            self.k.finite(),
        ensures
            self.option_type == OptionType::Call ==> self.payoff(s).rank() <= self.payoff(t).rank(),
            self.option_type == OptionType::Put ==> self.payoff(t).rank() <= self.payoff(s).rank(),
    {
        let k = self.k;
        Binary64::lemma_from_zero();
        Binary64::lemma_pack(!k.negative(), k.magnitude());
        Binary64::lemma_pack(!s.negative(), s.magnitude());
        Binary64::lemma_pack(!t.negative(), t.magnitude());
        if s.finite() {
            laws::lemma_add_rounds(k.neg(), s);
            laws::lemma_add_rounds(k, s.neg());
        }
        if t.finite() {
            laws::lemma_add_rounds(k.neg(), t);
            laws::lemma_add_rounds(k, t.neg());
        }
        laws::lemma_add_commutes(s, k.neg());
        laws::lemma_add_commutes(t, k.neg());
        laws::lemma_add_monotone(k.neg(), s, t);
        laws::lemma_add_monotone(k, t.neg(), s.neg());
    }

    /// A call pays no more where the strike is higher, and a put no less.
    pub proof fn lemma_payoff_follows_strike(self, other: EuropeanOption, s: Binary64)
        requires
            self.option_type == other.option_type,
            !self.k.nan(),
            !other.k.nan(),
            self.k.rank() <= other.k.rank(),
        ensures
            self.option_type == OptionType::Call ==> other.payoff(s).rank() <= self.payoff(
                s,
            ).rank(),
            self.option_type == OptionType::Put ==> self.payoff(s).rank() <= other.payoff(
                s,
            ).rank(),
    {
        let (k, l) = (self.k, other.k);
        Binary64::lemma_from_zero();
        Binary64::lemma_pack(!k.negative(), k.magnitude());
        Binary64::lemma_pack(!l.negative(), l.magnitude());
        Binary64::lemma_pack(!s.negative(), s.magnitude());
        if s.finite() {
            if k.finite() {
                laws::lemma_add_rounds(s, k.neg());
                laws::lemma_add_rounds(s.neg(), k);
            }
            if l.finite() {
                laws::lemma_add_rounds(s, l.neg());
                laws::lemma_add_rounds(s.neg(), l);
            }
            laws::lemma_add_monotone(s, l.neg(), k.neg());
            laws::lemma_add_commutes(k, s.neg());
            laws::lemma_add_commutes(l, s.neg());
            laws::lemma_add_monotone(s.neg(), k, l);
        }
    }

    /// A simulated call is worth no more at a higher strike, and a simulated put no
    /// less, all else equal, where both prices are numbers. The logarithm and the
    /// exponentials of the closed form may differ, as they do with the strike.
    pub proof fn lemma_price_follows_strike(
        self,
        other: EuropeanOption,
        prices: Seq<Binary64>,
        discount: Binary64,
        closed: (Binary64, Binary64, Binary64),
        other_closed: (Binary64, Binary64, Binary64),
    )
        requires
            other == (EuropeanOption { k: other.k, ..self }),
            !self.k.nan(),
            !other.k.nan(),
            self.k.rank() <= other.k.rank(),
            !discount.negative(),
            !self.spec_price_option(
                prices,
                closed.0,
                discount,
                closed.1,
                closed.2,
            ).mc_price.nan(),
            !other.spec_price_option(
                prices,
                other_closed.0,
                discount,
                other_closed.1,
                other_closed.2,
            ).mc_price.nan(),
        ensures
            ({
                let at = self.spec_price_option(
                    prices,
                    closed.0,
                    discount,
                    closed.1,
                    closed.2,
                ).mc_price;
                let above = other.spec_price_option(
                    prices,
                    other_closed.0,
                    discount,
                    other_closed.1,
                    other_closed.2,
                ).mc_price;
                &&& self.option_type == OptionType::Call ==> above.rank() <= at.rank()
                &&& self.option_type == OptionType::Put ==> at.rank() <= above.rank()
            }),
    {
        lemma_mean_payoff_follows_strike(self, other, prices, discount);
    }

    /// Of a call and a put with the same strike at most one pays.
    pub proof fn lemma_call_or_put(self, put: EuropeanOption, s: Binary64)
        requires
            self.option_type == OptionType::Call,
            put.option_type == OptionType::Put,
            self.k == put.k,
        ensures
            self.payoff(s).zero() || put.payoff(s).zero(),
    {
        let zero = Binary64::from_u64(0);
        Binary64::lemma_from_zero();
        let k = self.k;
        let (gain, loss) = (s.sub(k), k.sub(s));
        if zero.lt(gain) && zero.lt(loss) {
            Binary64::lemma_pack(!k.negative(), k.magnitude());
            Binary64::lemma_pack(!s.negative(), s.magnitude());
            if s.finite() && k.finite() {
                laws::lemma_add_rounds(s, k.neg());
                laws::lemma_add_rounds(k, s.neg());
                let d = s.value() - k.value();
                grid::lemma_rounded(d, 1);
                grid::lemma_rounded(-d, 1);
            }
        }
    }

    /// The interval around the simulated price contains it.
    pub proof fn lemma_interval_contains_price(
        self,
        prices: Seq<Binary64>,
        ln_moneyness: Binary64,
        discount: Binary64,
        gauss1: Binary64,
        gauss2: Binary64,
    )
        requires
            0 < prices.len() <= u64::MAX,
            !discount.negative(),
            ({
                let result = self.spec_price_option(
                    prices,
                    ln_moneyness,
                    discount,
                    gauss1,
                    gauss2,
                );
                !result.ci_low.nan() && !result.ci_high.nan()
            }),
        ensures
            ({
                let result = self.spec_price_option(
                    prices,
                    ln_moneyness,
                    discount,
                    gauss1,
                    gauss2,
                );
                result.ci_low.rank() <= result.mc_price.rank() <= result.ci_high.rank()
            }),
    {
        lemma_interval(self.spec_payoffs(prices), discount);
    }
}

/// The discounted mean payoff of a call does not rise with the strike, and that of
/// a put does not fall.
proof fn lemma_mean_payoff_follows_strike(
    at: EuropeanOption,
    above: EuropeanOption,
    prices: Seq<Binary64>,
    discount: Binary64,
)
    requires
        at.option_type == above.option_type,
        !at.k.nan(),
        !above.k.nan(),
        at.k.rank() <= above.k.rank(),
        !discount.negative(),
        !discount.mul(stats::mean(at.spec_payoffs(prices))).nan(),
        !discount.mul(stats::mean(above.spec_payoffs(prices))).nan(),
    ensures
        ({
            let x = discount.mul(stats::mean(at.spec_payoffs(prices)));
            let y = discount.mul(stats::mean(above.spec_payoffs(prices)));
            &&& at.option_type == OptionType::Call ==> y.rank() <= x.rank()
            &&& at.option_type == OptionType::Put ==> x.rank() <= y.rank()
        }),
{
    let (a, b) = (at.spec_payoffs(prices), above.spec_payoffs(prices));
    match at.option_type {
        OptionType::Call => {
            assert forall|i: int| 0 <= i < b.len() implies 0 <= (#[trigger] b[i]).rank()
                <= a[i].rank() <= grid::INF by {
                at.lemma_payoff_not_negative(prices[i]);
                above.lemma_payoff_not_negative(prices[i]);
                at.lemma_payoff_follows_strike(above, prices[i]);
            }
            lemma_mean_price_monotone(b, a, discount);
        },
        OptionType::Put => {
            assert forall|i: int| 0 <= i < a.len() implies 0 <= (#[trigger] a[i]).rank()
                <= b[i].rank() <= grid::INF by {
                at.lemma_payoff_not_negative(prices[i]);
                above.lemma_payoff_not_negative(prices[i]);
                at.lemma_payoff_follows_strike(above, prices[i]);
            }
            lemma_mean_price_monotone(a, b, discount);
        },
    }
}

/// Larger payoffs have no smaller discounted mean.
proof fn lemma_mean_price_monotone(a: Seq<Binary64>, b: Seq<Binary64>, discount: Binary64)
    requires
        a.len() == b.len(),
        forall|i: int|
            0 <= i < a.len() ==> 0 <= (#[trigger] a[i]).rank() <= b[i].rank() <= grid::INF,
        !discount.negative(),
        !discount.mul(stats::mean(a)).nan(),
        !discount.mul(stats::mean(b)).nan(),
    ensures
        discount.mul(stats::mean(a)).rank() <= discount.mul(stats::mean(b)).rank(),
{
    let len = a.len() as u64;
    stats::lemma_total_monotone(a, b);
    grid::lemma_rounded(len * binary64::one(), 1);
    Binary64::lemma_pack(false, grid::rounded(len * binary64::one(), 1));
    laws::lemma_div_monotone(stats::total(a), stats::total(b), Binary64::from_u64(len));
    laws::lemma_scaled_monotone(discount, stats::mean(a), stats::mean(b));
}

/// The interval around a discounted mean contains it.
proof fn lemma_interval(payoffs: Seq<Binary64>, discount: Binary64)
    requires
        0 < payoffs.len() <= u64::MAX,
        !discount.negative(),
        ({
            let n = Binary64::from_u64(payoffs.len() as u64);
            let p = discount.mul(stats::mean(payoffs));
            let std_error = discount.mul(stats::std_dev(payoffs)).div(n.sqrt());
            let margin = Binary64::ratio(196, 100).mul(std_error);
            !p.sub(margin).nan() && !p.add(margin).nan()
        }),
    ensures
        ({
            let n = Binary64::from_u64(payoffs.len() as u64);
            let p = discount.mul(stats::mean(payoffs));
            let std_error = discount.mul(stats::std_dev(payoffs)).div(n.sqrt());
            let margin = Binary64::ratio(196, 100).mul(std_error);
            p.sub(margin).rank() <= p.rank() <= p.add(margin).rank()
        }),
{
    let n = Binary64::from_u64(payoffs.len() as u64);
    let p = discount.mul(stats::mean(payoffs));
    let spread = stats::std_dev(payoffs);
    let std_error = discount.mul(spread).div(n.sqrt());
    let margin = Binary64::ratio(196, 100).mul(std_error);
    assert(!margin.negative()) by {
        stats::lemma_std_dev_sign(payoffs);
        grid::lemma_rounded(payoffs.len() * binary64::one(), 1);
        grid::lemma_rounded(196 * binary64::one(), 100);
        Binary64::lemma_pack(false, grid::rounded(196 * binary64::one(), 100));
        laws::lemma_signs(n, n);
        laws::lemma_signs(discount, spread);
        laws::lemma_signs(discount.mul(spread), n.sqrt());
        laws::lemma_signs(Binary64::ratio(196, 100), std_error);
    }
    assert(!margin.nan() && !p.nan());
    let zero = Binary64::pack(false, 0);
    Binary64::lemma_pack(false, 0);
    Binary64::lemma_pack(true, margin.magnitude());
    laws::lemma_add_zero(p, zero);
    laws::lemma_add_monotone(p, margin.neg(), zero);
    laws::lemma_add_monotone(p, zero, margin);
}

} // verus!
