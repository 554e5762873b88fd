//! Put-call parity: what a call is worth over a put with the same strike.
use crate::args::OptionType;
use crate::binary64;
use crate::binary64::Binary64;
use crate::grid;
use crate::normal;
use crate::precision;
use crate::pricing;
use crate::pricing::EuropeanOption;
use crate::scale;
use crate::stats;
use crate::sums;
use vstd::arithmetic::power2::*;
use vstd::math::abs;
use vstd::prelude::*;

verus! {

/// A call, and a put on the same terms.
pub open spec fn pair(call: EuropeanOption, put: EuropeanOption) -> bool {
    &&& call.option_type == OptionType::Call
    &&& put == EuropeanOption { option_type: OptionType::Put, ..call }
}

/// What a call pays over a put is what the stock is worth over the strike,
/// rounded; one of the two pays nothing.
proof fn lemma_payoff_pair(call: EuropeanOption, put: EuropeanOption, s: Binary64)
    requires
        pair(call, put),
        s.finite(),
        call.k.finite(),
        call.payoff(s).finite(),
        put.payoff(s).finite(),
    ensures
        ({
            let (c, p) = (call.payoff(s).value(), put.payoff(s).value());
            let exact = s.value() - call.k.value();
            &&& precision::SHARE * abs(c - p - exact) <= abs(exact)
            &&& c + p == abs(c - p)
        }),
{
    let k = call.k;
    let exact = s.value() - k.value();
    let n = abs(exact) as int;
    Binary64::lemma_from_zero();
    Binary64::lemma_pack(!k.negative(), k.magnitude());
    Binary64::lemma_pack(!s.negative(), s.magnitude());
    grid::lemma_units_small(0);
    grid::lemma_rounded(n, 1);
    let r = grid::rounded(n, 1);
    precision::lemma_units_natural(r);
    if exact != 0 {
        Binary64::lemma_pack(true, r);
        Binary64::lemma_pack(false, r);
        assert(s.sub(k) == Binary64::pack(exact < 0, r));
        assert(k.sub(s) == Binary64::pack(exact > 0, r));
        assert(r < grid::INF);
        precision::lemma_rounding_error(n, 1);
    }
}

/// The same, added up over a sample.
proof fn lemma_payoff_sums(call: EuropeanOption, put: EuropeanOption, prices: Seq<Binary64>)
    requires
        pair(call, put),
        call.k.finite(),
        forall|i: int|
            0 <= i < prices.len() ==> (#[trigger] prices[i]).finite() && call.payoff(
                prices[i],
            ).finite() && put.payoff(prices[i]).finite(),
    ensures
        ({
            let (c, p) = (
                sums::exact_total(call.spec_payoffs(prices)),
                sums::exact_total(put.spec_payoffs(prices)),
            );
            let n = prices.len() as int;
            let size = sums::exact_size(prices) + n * abs(call.k.value());
            &&& precision::SHARE * abs(c - p - (sums::exact_total(prices) - n * call.k.value()))
                <= size
            &&& precision::SHARE * (c + p) <= (precision::SHARE + 1) * size
        }),
    decreases prices.len(),
{
    let (cs, ps) = (call.spec_payoffs(prices), put.spec_payoffs(prices));
    if prices.len() == 0 {
        assert(0 * call.k.value() == 0 && 0 * abs(call.k.value()) == 0);
    } else {
        let rest = prices.drop_last();
        let x = prices.last();
        assert(x == prices[prices.len() - 1]);
        assert forall|i: int| 0 <= i < rest.len() implies (#[trigger] rest[i]).finite()
            && call.payoff(rest[i]).finite() && put.payoff(rest[i]).finite() by {
            assert(rest[i] == prices[i]);
        }
        lemma_payoff_sums(call, put, rest);
        lemma_payoff_pair(call, put, x);
        assert(cs.drop_last() =~= call.spec_payoffs(rest));
        assert(ps.drop_last() =~= put.spec_payoffs(rest));
        let n = prices.len() as int;
        let (k, a) = (call.k.value(), abs(call.k.value()) as int);
        assert(n * k == (n - 1) * k + k && n * a == (n - 1) * a + a) by (nonlinear_arith);
        let h = precision::SHARE as int;
        let (c, p) = (call.payoff(x).value(), put.payoff(x).value());
        let exact = x.value() - k;
        assert(h * (c + p) <= (h + 1) * abs(exact));
        assert(abs(exact) <= abs(x.value()) + a);
    }
}

/// Put-call parity on a sample: what the simulated call is worth over the
/// simulated put is the mean price less the strike, discounted, up to a billionth
/// of what the mean size of the prices and the size of the strike come to,
/// discounted. So for up to a million prices, where nothing overflows, and
/// neither that size nor its discounted value is below the smallest normal
/// number.
///
/// Exact values are in units of 2^-1074, of which `one()` make one, and both
/// sides are taken `prices.len() * one()` times.
pub proof fn lemma_sample_parity(
    call: EuropeanOption,
    put: EuropeanOption,
    prices: Seq<Binary64>,
    ln_moneyness: Binary64,
    discount: Binary64,
    gauss1: Binary64,
    gauss2: Binary64,
)
    requires
        pair(call, put),
        1 <= prices.len() <= 1_000_000,
        forall|i: int| 0 <= i < prices.len() ==> (#[trigger] prices[i]).finite(),
        call.k.finite(),
        !discount.negative(),
        call.spec_price_option(prices, ln_moneyness, discount, gauss1, gauss2).mc_price.finite(),
        put.spec_price_option(prices, ln_moneyness, discount, gauss1, gauss2).mc_price.finite(),
        ({
            let n = prices.len() as int;
            let size = sums::exact_size(prices) + n * abs(call.k.value());
            &&& size >= n * grid::BINADE
            &&& discount.value() * size >= n * binary64::one() * grid::BINADE
        }),
    ensures
        ({
            let n = prices.len() as int;
            let size = sums::exact_size(prices) + n * abs(call.k.value());
            let gain = sums::exact_total(prices) - n * call.k.value();
            let c = call.spec_price_option(prices, ln_moneyness, discount, gauss1, gauss2).mc_price;
            let p = put.spec_price_option(prices, ln_moneyness, discount, gauss1, gauss2).mc_price;
            1_000_000_000 * abs(
                binary64::one() * (n * (c.value() - p.value())) - discount.value() * gain,
            ) <= discount.value() * size
        }),
{
    let (cs, ps) = (call.spec_payoffs(prices), put.spec_payoffs(prices));
    let n = prices.len() as int;
    let o = binary64::one();
    lemma_pow2_pos(1074);
    assert forall|i: int| 0 <= i < cs.len() implies !(#[trigger] cs[i]).negative() by {
        call.lemma_payoff_not_negative(prices[i]);
    }
    assert forall|i: int| 0 <= i < ps.len() implies !(#[trigger] ps[i]).negative() by {
        put.lemma_payoff_not_negative(prices[i]);
    }
    sums::lemma_discounted_mean_error(cs, discount);
    sums::lemma_discounted_mean_error(ps, discount);
    scale::lemma_finite_factors(discount, stats::mean(cs));
    scale::lemma_finite_factors(discount, stats::mean(ps));
    sums::lemma_mean_error(cs);
    sums::lemma_mean_error(ps);
    sums::lemma_finite_members(cs);
    sums::lemma_finite_members(ps);
    assert forall|i: int| 0 <= i < prices.len() implies (#[trigger] prices[i]).finite()
        && call.payoff(prices[i]).finite() && put.payoff(prices[i]).finite() by {
        assert(cs[i].finite() && ps[i].finite());
    }
    lemma_payoff_sums(call, put, prices);
    sums::lemma_size_of_unsigned(cs);
    sums::lemma_size_of_unsigned(ps);
    precision::lemma_units_natural(discount.magnitude());
    let c = call.spec_price_option(prices, ln_moneyness, discount, gauss1, gauss2).mc_price.value();
    let p = put.spec_price_option(prices, ln_moneyness, discount, gauss1, gauss2).mc_price.value();
    lemma_parity_bound(
        n,
        o,
        discount.value(),
        c,
        p,
        sums::exact_total(cs),
        sums::exact_total(ps),
        sums::exact_total(prices) - n * call.k.value(),
        sums::exact_size(prices) + n * abs(call.k.value()),
    );
}

/// The arithmetic of the bound.
proof fn lemma_parity_bound(
    n: int,
    o: int,
    d: int,
    c: int,
    p: int,
    x: int,
    y: int,
    gain: int,
    size: int,
)
    requires
        1 <= n <= 1_000_000,
        0 < o,
        0 <= d,
        0 <= x,
        0 <= y,
        precision::SHARE * abs(o * (n * c) - d * x) <= d * (6 * x + (grid::BINADE + 1) * n + 2 * (n
            * x)) + grid::BINADE * (n * o),
        precision::SHARE * abs(o * (n * p) - d * y) <= d * (6 * y + (grid::BINADE + 1) * n + 2 * (n
            * y)) + grid::BINADE * (n * o),
        precision::SHARE * abs(x - y - gain) <= size,
        precision::SHARE * (x + y) <= (precision::SHARE + 1) * size,
        size >= n * grid::BINADE,
        d * size >= n * o * grid::BINADE,
    ensures
        1_000_000_000 * abs(o * (n * (c - p)) - d * gain) <= d * size,
{
    let b = grid::BINADE as int;
    let h = precision::SHARE as int;
    let (nc, np) = (n * c, n * p);
    assert(o * (n * (c - p)) == o * nc - o * np) by (nonlinear_arith)
        requires
            nc == n * c,
            np == n * p,
    ;
    let e = x - y - gain;
    let a = abs(e) as int;
    assert(d * gain == d * x - d * y - d * e) by (nonlinear_arith)
        requires
            e == x - y - gain,
    ;
    assert(abs(d * e) == d * a && h * (d * a) <= d * size) by (nonlinear_arith)
        requires
            0 <= d,
            a == (if e < 0 { -e } else { e }),
            h * a <= size,
    ;
    let (u, v) = (6 * x + (b + 1) * n + 2 * (n * x), 6 * y + (b + 1) * n + 2 * (n * y));
    let z = x + y;
    assert(z <= 2 * size) by (nonlinear_arith)
        requires
            h * z <= (h + 1) * size,
            h >= 1,
            size >= n * b,
            n >= 1,
            b >= 1,
    ;
    assert(n * x + n * y == n * z && n * z <= 2 * (n * size) && n * size <= 1_000_000 * size)
        by (nonlinear_arith)
        requires
            z == x + y,
            z <= 2 * size,
            1 <= n <= 1_000_000,
            size >= 0,
    ;
    assert((b + 1) * n == b * n + n && n * b == b * n) by (nonlinear_arith);
    assert(u + v <= 4_000_016 * size);
    assert(d * u + d * v <= 4_000_016 * (d * size)) by (nonlinear_arith)
        requires
            u + v <= 4_000_016 * size,
            0 <= d,
    ;
    assert(n * o * b == b * (n * o)) by (nonlinear_arith);
}

/// A share of a number: not negative, no more than the number, and off by its
/// share of one in 2^53, about, or by half a unit.
proof fn lemma_share(x: Binary64, share: Binary64)
    requires
        x.finite(),
        0 <= x.value(),
        normal::unit(share),
    ensures
        x.mul(share).finite(),
        0 <= x.mul(share).value() <= x.value(),
        precision::SHARE * abs(binary64::one() * x.mul(share).value() - x.value() * share.value())
            <= x.value() * share.value() + grid::BINADE * binary64::one(),
        0 <= x.value() * share.value() <= binary64::one() * x.value(),
{
    let o = binary64::one();
    let (u, v) = (grid::units(x.magnitude()), grid::units(share.magnitude()));
    lemma_pow2_pos(1074);
    precision::lemma_units_natural(x.magnitude());
    precision::lemma_units_natural(share.magnitude());
    assert(0 <= u * v <= o * u) by (nonlinear_arith)
        requires
            0 <= u,
            0 <= v <= o,
    ;
    assert(x.value() == u && share.value() == v);
    precision::lemma_rounding_bound(u * v, o, x.magnitude());
    grid::lemma_rounded(u * v, o);
    let r = grid::rounded(u * v, o);
    precision::lemma_units_natural(r);
    Binary64::lemma_pack(x.negative() != share.negative(), r);
    if x.negative() || share.negative() {
        assert(u * v == 0) by (nonlinear_arith)
            requires
                u == 0 || v == 0,
        ;
        grid::lemma_rounded_exact(0, o);
        grid::lemma_units_small(0);
        assert(o * 0 == 0);
    }
    precision::lemma_rounding_error(u * v, o);
}

/// A difference of two numbers that are not negative is finite, and no more than
/// the first.
proof fn lemma_difference_finite(p: Binary64, q: Binary64)
    requires
        p.finite(),
        q.finite(),
        0 <= p.value(),
        0 <= q.value(),
    ensures
        p.sub(q).finite(),
        p.sub(q).value() <= p.value(),
{
    let s = p.value() - q.value();
    let n = abs(s) as int;
    Binary64::lemma_pack(!q.negative(), q.magnitude());
    precision::lemma_units_natural(p.magnitude());
    precision::lemma_units_natural(q.magnitude());
    grid::lemma_rounded(n, 1);
    if s < 0 {
        precision::lemma_rounding_bound(n, 1, q.magnitude());
    } else {
        precision::lemma_rounding_bound(n, 1, p.magnitude());
    }
    precision::lemma_units_natural(grid::rounded(n, 1));
    grid::lemma_units_small(0);
    Binary64::lemma_pack(s < 0, grid::rounded(n, 1));
    Binary64::lemma_pack(p.negative() && !q.negative(), 0);
}

/// A call is never worth more than the stock by the closed form, and a put never
/// more than the discounted strike.
pub proof fn lemma_closed_form_bounds(
    option: EuropeanOption,
    ln_moneyness: Binary64,
    discount: Binary64,
    gauss1: Binary64,
    gauss2: Binary64,
)
    requires
        option.s0.finite(),
        0 <= option.s0.value(),
        option.k.mul(discount).finite(),
        0 <= option.k.mul(discount).value(),
        !option.d1(ln_moneyness).nan(),
        !option.d2(ln_moneyness).nan(),
        normal::unit(gauss1),
        normal::unit(gauss2),
    ensures
        ({
            let price = option.black_scholes_price(ln_moneyness, discount, gauss1, gauss2);
            &&& price.finite()
            &&& option.option_type == OptionType::Call ==> price.value() <= option.s0.value()
            &&& option.option_type == OptionType::Put ==> price.value() <= option.k.mul(
                discount,
            ).value()
        }),
{
    let (d1, d2) = (option.d1(ln_moneyness), option.d2(ln_moneyness));
    let (s0, paid) = (option.s0, option.k.mul(discount));
    Binary64::lemma_pack(!d1.negative(), d1.magnitude());
    Binary64::lemma_pack(!d2.negative(), d2.magnitude());
    match option.option_type {
        OptionType::Call => {
            let (n1, n2) = (pricing::norm_cdf(d1, gauss1), pricing::norm_cdf(d2, gauss2));
            normal::lemma_norm_cdf_is_a_probability(d1, gauss1);
            normal::lemma_norm_cdf_is_a_probability(d2, gauss2);
            lemma_share(s0, n1);
            lemma_share(paid, n2);
            lemma_difference_finite(s0.mul(n1), paid.mul(n2));
        },
        OptionType::Put => {
            let (m1, m2) = (
                pricing::norm_cdf(d1.neg(), gauss1),
                pricing::norm_cdf(d2.neg(), gauss2),
            );
            normal::lemma_norm_cdf_is_a_probability(d1.neg(), gauss1);
            normal::lemma_norm_cdf_is_a_probability(d2.neg(), gauss2);
            lemma_share(s0, m1);
            lemma_share(paid, m2);
            lemma_difference_finite(paid.mul(m2), s0.mul(m1));
        },
    }
}

/// Put-call parity of the closed form: what the call is worth over the put is the
/// stock price less the discounted strike, up to 1e-8 of the sum of the two. So
/// where neither is negative, the discounted strike does not overflow, their sum
/// is not below the smallest normal number, and d1 and d2 are numbers.
pub proof fn lemma_closed_form_parity(
    call: EuropeanOption,
    put: EuropeanOption,
    ln_moneyness: Binary64,
    discount: Binary64,
    gauss1: Binary64,
    gauss2: Binary64,
)
    requires
        pair(call, put),
        call.s0.finite(),
        0 <= call.s0.value(),
        call.k.mul(discount).finite(),
        0 <= call.k.mul(discount).value(),
        call.s0.value() + call.k.mul(discount).value() >= grid::BINADE,
        !call.d1(ln_moneyness).nan(),
        !call.d2(ln_moneyness).nan(),
        normal::gauss_at(call.d1(ln_moneyness), gauss1),
        normal::gauss_at(call.d2(ln_moneyness), gauss2),
    ensures
        ({
            let c = call.black_scholes_price(ln_moneyness, discount, gauss1, gauss2);
            let p = put.black_scholes_price(ln_moneyness, discount, gauss1, gauss2);
            let (stock, paid) = (call.s0.value(), call.k.mul(discount).value());
            &&& c.finite()
            &&& p.finite()
            &&& 100_000_000 * abs(c.value() - p.value() - (stock - paid)) <= stock + paid
        }),
{
    let (d1, d2) = (call.d1(ln_moneyness), call.d2(ln_moneyness));
    let (n1, m1) = (pricing::norm_cdf(d1, gauss1), pricing::norm_cdf(d1.neg(), gauss1));
    let (n2, m2) = (pricing::norm_cdf(d2, gauss2), pricing::norm_cdf(d2.neg(), gauss2));
    let (s0, paid) = (call.s0, call.k.mul(discount));
    Binary64::lemma_pack(!d1.negative(), d1.magnitude());
    Binary64::lemma_pack(!d2.negative(), d2.magnitude());
    normal::lemma_norm_cdf_is_a_probability(d1, gauss1);
    normal::lemma_norm_cdf_is_a_probability(d1.neg(), gauss1);
    normal::lemma_norm_cdf_is_a_probability(d2, gauss2);
    normal::lemma_norm_cdf_is_a_probability(d2.neg(), gauss2);
    normal::lemma_norm_cdf_tails(d1, gauss1);
    normal::lemma_norm_cdf_tails(d2, gauss2);
    lemma_share(s0, n1);
    lemma_share(s0, m1);
    lemma_share(paid, n2);
    lemma_share(paid, m2);
    let (x, y) = (s0.mul(n1), paid.mul(n2));
    let (v, w) = (s0.mul(m1), paid.mul(m2));
    lemma_difference_finite(x, y);
    lemma_difference_finite(w, v);
    precision::lemma_sub_error(x, y);
    precision::lemma_sub_error(w, v);
    lemma_pow2_pos(1074);
    let o = binary64::one();
    lemma_whole_bound(o, s0.value(), n1.value(), m1.value(), x.value(), v.value());
    lemma_whole_bound(o, paid.value(), n2.value(), m2.value(), y.value(), w.value());
}

/// The arithmetic of the bound: the two shares of `a` make up `a`.
proof fn lemma_whole_bound(o: int, a: int, n: int, m: int, x: int, y: int)
    requires
        0 < o,
        0 <= a,
        0 <= x,
        0 <= y,
        1_000_000_000 * abs(n + m - o) <= 2 * o,
        precision::SHARE * abs(o * x - a * n) <= a * n + grid::BINADE * o,
        precision::SHARE * abs(o * y - a * m) <= a * m + grid::BINADE * o,
        a * n <= o * a,
        a * m <= o * a,
    ensures
        1_000_000_000 * abs(x + y - a) <= 3 * a + 1_000_000_000 * 2,
{
    let e = n + m - o;
    let f = abs(e) as int;
    assert(o * x + o * y - o * a == (o * x - a * n) + (o * y - a * m) + a * e) by (nonlinear_arith)
        requires
            e == n + m - o,
    ;
    assert(abs(a * e) == a * f && 1_000_000_000 * (a * f) <= 2 * (o * a)) by (nonlinear_arith)
        requires
            0 <= a,
            f == (if e < 0 { -e } else { e }),
            1_000_000_000 * f <= 2 * o,
    ;
    let z = x + y - a;
    let oa = o * a;
    assert(0 <= oa) by (nonlinear_arith)
        requires
            0 < o,
            0 <= a,
            oa == o * a,
    ;
    assert(o * z == o * x + o * y - oa) by (nonlinear_arith)
        requires
            z == x + y - a,
            oa == o * a,
    ;
    assert(1_000_000_000 * abs(o * z) <= 3 * oa + 2_000_000_000 * o);
    let az = abs(z) as int;
    assert(abs(o * z) == o * az) by (nonlinear_arith)
        requires
            0 < o,
            az == (if z < 0 { -z } else { z }),
    ;
    assert(1_000_000_000 * az <= 3 * a + 2_000_000_000) by (nonlinear_arith)
        requires
            1_000_000_000 * (o * az) <= 3 * (o * a) + 2_000_000_000 * o,
            0 < o,
    ;
}

} // verus!
