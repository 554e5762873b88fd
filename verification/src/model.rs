//! The model that prices are simulated by, in exact arithmetic: what the terms of a
//! day's growth, the time step and the horizon come to, up to rounding.
//!
//! Exact values are in units of 2^-1074, of which `one()` make one. A product of two
//! is therefore in units of 2^-2148, and so on; both sides of each law are of one
//! kind.
use crate::accuracy;
use crate::args::Args;
use crate::binary64;
use crate::binary64::Binary64;
use crate::grid;
use crate::interval;
use crate::laws;
use crate::path;
use crate::path::StepTerms;
use crate::precision;
use crate::pricing;
use crate::scale;
use crate::sums;
use vstd::arithmetic::power2::*;
use vstd::math::abs;
use vstd::prelude::*;

verus! {

/// Half the square of a number, rounded twice.
pub(crate) proof fn lemma_half_square(v: Binary64)
    requires
        Binary64::ratio(1, 2).mul(v).mul(v).finite(),
    ensures
        v.finite(),
        precision::SHARE * abs(
            2 * (binary64::one() * Binary64::ratio(1, 2).mul(v).mul(v).value()) - v.value()
                * v.value(),
        ) <= 4 * (v.value() * v.value()) + 6 * (grid::BINADE * binary64::one()),
{
    let o = binary64::one();
    let half = Binary64::ratio(1, 2);
    let p = half.mul(v);
    lemma2_to64();
    lemma_pow2_pos(1074);
    interval::lemma_tick(10);
    interval::lemma_within_ratio(1, 2, 10, 512, 512);
    assert(2 * half.value() == o);
    scale::lemma_finite_factors(p, v);
    scale::lemma_finite_factors(half, v);
    precision::lemma_mul_error(half, v);
    precision::lemma_mul_error(p, v);
    lemma_one_is_large();
    lemma_half_square_bound(o, half.value(), v.value(), p.value(), p.mul(v).value());
}

/// One is a great many units.
pub(crate) proof fn lemma_one_is_large()
    ensures
        binary64::one() >= 0x1_0000_0000 * (grid::BINADE * 0x1_0000_0000_0000_0000),
{
    lemma2_to64();
    lemma2_to64_rest();
    lemma_pow2_adds(52, 64);
    lemma_pow2_adds(32, 116);
    lemma_pow2_strictly_increases(148, 1074);
    assert(pow2(52) * pow2(64) == grid::BINADE * 0x1_0000_0000_0000_0000);
    assert(pow2(148) == 0x1_0000_0000 * pow2(116));
}

#[verifier::rlimit(40)]
proof fn lemma_half_square_bound(o: int, h: int, v: int, p: int, q: int)
    requires
        2 * h == o,
        4 * grid::BINADE <= o,
        precision::SHARE * abs(o * p - h * v) <= abs(h * v) + grid::BINADE * o,
        precision::SHARE * abs(o * q - p * v) <= abs(p * v) + grid::BINADE * o,
    ensures
        precision::SHARE * abs(2 * (o * q) - v * v) <= 4 * (v * v) + 6 * (grid::BINADE * o),
{
    let s = precision::SHARE as int;
    let b = grid::BINADE as int;
    let (a, w) = (abs(v) as int, v * v);
    // half the number
    let m = 2 * p - v;
    assert(o * p - h * v == h * m) by (nonlinear_arith)
        requires
            2 * h == o,
            m == 2 * p - v,
    ;
    let am = abs(m) as int;
    assert(abs(h * m) == h * am && abs(h * v) == h * a) by (nonlinear_arith)
        requires
            h > 0,
            am == (if m < 0 { -m } else { m }),
            a == (if v < 0 { -v } else { v }),
    ;
    assert(s * am <= a + 2 * b) by (nonlinear_arith)
        requires
            s * (h * am) <= h * a + b * (2 * h),
            h > 0,
    ;
    // its product with the number
    let pv = p * v;
    let ap = abs(p) as int;
    assert(2 * ap <= 2 * a + 2);
    assert(abs(pv) == ap * a && w == a * a && 0 <= w) by (nonlinear_arith)
        requires
            pv == p * v,
            w == v * v,
            ap == (if p < 0 { -p } else { p }),
            a == (if v < 0 { -v } else { v }),
    ;
    assert(ap * a <= w + a) by (nonlinear_arith)
        requires
            ap <= a + 1,
            w == a * a,
            0 <= a,
    ;
    let mv = m * v;
    assert(2 * pv - w == mv && abs(mv) == am * a) by (nonlinear_arith)
        requires
            m == 2 * p - v,
            mv == m * v,
            pv == p * v,
            w == v * v,
            am == (if m < 0 { -m } else { m }),
            a == (if v < 0 { -v } else { v }),
    ;
    assert(s * (am * a) <= w + 2 * (b * a)) by (nonlinear_arith)
        requires
            s * am <= a + 2 * b,
            w == a * a,
            0 <= a,
    ;
    // what is left over is small, or the square is large
    let ba = b * a;
    if a <= o {
        assert(ba <= b * o) by (nonlinear_arith)
            requires
                a <= o,
                ba == b * a,
                0 <= b,
        ;
        assert(a <= ba) by (nonlinear_arith)
            requires
                ba == b * a,
                1 <= b,
                0 <= a,
        ;
    } else {
        assert(4 * ba <= w && 4 * a <= w) by (nonlinear_arith)
            requires
                ba == b * a,
                w == a * a,
                a > o,
                4 * b <= o,
                1 <= b,
        ;
    }
    assert(0 <= b * o) by (nonlinear_arith)
        requires
            0 <= b,
            0 < o,
    ;
}

/// The growth without a shock: `drift_term` is (mu - volatility^2 / 2) * dt, for
/// every volatility, drift and time step, up to rounding.
pub proof fn lemma_drift_term(volatility: Binary64, mu: Binary64, dt: Binary64)
    requires
        StepTerms::new(volatility, mu, dt).drift_term.finite(),
    ensures
        volatility.finite() && mu.finite() && dt.finite(),
        ({
            let o = binary64::one();
            let (v, m, d) = (volatility.value(), mu.value(), dt.value());
            let term = StepTerms::new(volatility, mu, dt).drift_term.value();
            precision::SHARE * abs(2 * (o * (o * term)) - (2 * (o * m) - v * v) * d) <= 24 * (abs(d)
                * (o * abs(m) + v * v + grid::BINADE * o)) + 2 * (grid::BINADE * (o * o))
        }),
{
    let o = binary64::one();
    let q = Binary64::ratio(1, 2).mul(volatility).mul(volatility);
    let s = mu.sub(q);
    lemma_pow2_pos(1074);
    lemma_one_is_large();
    scale::lemma_finite_factors(s, dt);
    Binary64::lemma_pack(!q.negative(), q.magnitude());
    sums::lemma_finite_addends(mu, q.neg());
    lemma_half_square(volatility);
    precision::lemma_sub_error(mu, q);
    precision::lemma_mul_error(s, dt);
    lemma_drift_bound(
        o,
        volatility.value(),
        mu.value(),
        dt.value(),
        q.value(),
        s.value(),
        s.mul(dt).value(),
    );
}

#[verifier::rlimit(40)]
pub(crate) proof fn lemma_drift_bound(o: int, v: int, m: int, d: int, q: int, s: int, t: int)
    requires
        4 * grid::BINADE <= o,
        precision::SHARE * abs(2 * (o * q) - v * v) <= 4 * (v * v) + 6 * (grid::BINADE * o),
        precision::SHARE * abs(s - (m - q)) <= abs(m - q),
        precision::SHARE * abs(o * t - s * d) <= abs(s * d) + grid::BINADE * o,
    ensures
        precision::SHARE * abs(2 * (o * (o * t)) - (2 * (o * m) - v * v) * d) <= 24 * (abs(d) * (o
            * abs(m) + v * v + grid::BINADE * o)) + 2 * (grid::BINADE * (o * o)),
{
    let h = precision::SHARE as int;
    let b = grid::BINADE as int;
    let w = v * v;
    let (bo, oq, om) = (b * o, o * q, o * m);
    assert(0 <= w && 0 <= bo && 6 * o <= 6 * bo) by (nonlinear_arith)
        requires
            w == v * v,
            bo == b * o,
            1 <= b,
            0 < o,
    ;
    let x = m - q;
    let (ax, am) = (abs(x) as int, o * abs(m));
    let ox = o * ax;
    assert(abs(om) == am && abs(o * x) == ox && o * x == om - oq && 0 <= am) by (nonlinear_arith)
        requires
            om == o * m,
            oq == o * q,
            x == m - q,
            am == o * (if m < 0 { -m } else { m }),
            ox == o * (if x < 0 { -x } else { x }),
            0 < o,
    ;
    assert(2 * ox <= 2 * am + 2 * w + 6 * bo);
    let ad = abs(d) as int;
    // the three steps: product, difference, square
    let (e1, e2, e3) = (o * t - s * d, s - x, w - 2 * oq);
    let (a1, a2, a3) = (abs(e1) as int, abs(e2) as int, abs(e3) as int);
    let (ot, sd) = (o * t, s * d);
    assert(2 * (o * (o * t)) - (2 * om - w) * d == 2 * (o * e1) + 2 * ((o * d) * e2) + d * e3) by {
        assert(o * e1 == o * ot - o * sd) by (nonlinear_arith)
            requires
                e1 == ot - sd,
        ;
        assert(o * sd == (o * d) * s) by (nonlinear_arith)
            requires
                sd == s * d,
        ;
        assert((o * d) * e2 == (o * d) * s - (o * d) * x) by (nonlinear_arith)
            requires
                e2 == s - x,
        ;
        assert((o * d) * x == d * (om - oq)) by (nonlinear_arith)
            requires
                om - oq == o * x,
        ;
        assert(d * (om - oq) == d * om - d * oq && d * e3 == d * w - 2 * (d * oq)
            && (2 * om - w) * d == 2 * (d * om) - d * w) by (nonlinear_arith)
            requires
                e3 == w - 2 * oq,
        ;
    }
    let od = o * d;
    assert(abs(o * e1) == o * a1 && abs(od * e2) == (o * ad) * a2 && abs(d * e3) == ad * a3)
        by (nonlinear_arith)
        requires
            0 < o,
            od == o * d,
            ad == (if d < 0 { -d } else { d }),
            a1 == (if e1 < 0 { -e1 } else { e1 }),
            a2 == (if e2 < 0 { -e2 } else { e2 }),
            a3 == (if e3 < 0 { -e3 } else { e3 }),
    ;
    let as_ = abs(s) as int;
    assert(as_ <= 2 * ax);
    assert(abs(sd) == as_ * ad) by (nonlinear_arith)
        requires
            sd == s * d,
            as_ == (if s < 0 { -s } else { s }),
            ad == (if d < 0 { -d } else { d }),
    ;
    let m1 = ad * ox;
    assert(o * (as_ * ad) <= 2 * m1) by (nonlinear_arith)
        requires
            as_ <= 2 * ax,
            0 <= ad,
            0 < o,
            ox == o * ax,
            m1 == ad * ox,
    ;
    assert(h * (o * a1) <= o * (as_ * ad) + o * bo) by (nonlinear_arith)
        requires
            h * a1 <= as_ * ad + bo,
            0 < o,
    ;
    assert(h * ((o * ad) * a2) <= m1) by (nonlinear_arith)
        requires
            h * a2 <= ax,
            0 < o,
            0 <= ad,
            ox == o * ax,
            m1 == ad * ox,
    ;
    assert(h * (ad * a3) <= ad * (4 * w + 6 * bo)) by (nonlinear_arith)
        requires
            h * a3 <= 4 * w + 6 * bo,
            0 <= ad,
    ;
    assert(o * bo == b * (o * o)) by (nonlinear_arith)
        requires
            bo == b * o,
    ;
    assert(6 * m1 + ad * (4 * w + 6 * bo) <= 24 * (ad * (am + w + bo)))
        by (nonlinear_arith)
        requires
            2 * ox <= 2 * am + 2 * w + 6 * bo,
            m1 == ad * ox,
            0 <= ad,
            0 <= am,
            0 <= w,
            0 <= bo,
    ;
}

/// What a shock of one adds: `vol_term` is the volatility times the square root of
/// the time step, for every volatility and time step, up to rounding.
pub proof fn lemma_vol_term(volatility: Binary64, mu: Binary64, dt: Binary64)
    requires
        StepTerms::new(volatility, mu, dt).vol_term.finite(),
    ensures
        volatility.finite() && dt.finite() && 0 <= dt.value(),
        ({
            let o = binary64::one();
            let (v, d, root) = (volatility.value(), dt.value(), dt.sqrt().value());
            let term = StepTerms::new(volatility, mu, dt).vol_term.value();
            &&& precision::SHARE * abs(o * term - v * root) <= abs(v * root) + grid::BINADE * o
            &&& grid::BINADE * abs(root * root - o * d) <= 4 * (o * d)
        }),
{
    let root = dt.sqrt();
    scale::lemma_finite_factors(volatility, root);
    precision::lemma_units_natural(dt.magnitude());
    grid::lemma_units_small(0);
    accuracy::lemma_root_error(dt);
    precision::lemma_mul_error(volatility, root);
}

/// The logarithm of a day's growth is the growth without a shock, and the shock
/// times what a shock of one adds, up to rounding.
pub proof fn lemma_exponent(terms: StepTerms, z: Binary64)
    requires
        terms.exponent(z).finite(),
    ensures
        terms.drift_term.finite() && terms.vol_term.finite() && z.finite(),
        ({
            let o = binary64::one();
            let (a, b) = (terms.drift_term.value(), terms.vol_term.value());
            precision::SHARE * abs(o * terms.exponent(z).value() - (o * a + b * z.value())) <= o
                * abs(a) + 3 * abs(b * z.value()) + 2 * (grid::BINADE * o)
        }),
{
    let p = terms.vol_term.mul(z);
    let o = binary64::one();
    lemma_pow2_pos(1074);
    sums::lemma_finite_addends(terms.drift_term, p);
    scale::lemma_finite_factors(terms.vol_term, z);
    precision::lemma_mul_error(terms.vol_term, z);
    precision::lemma_add_error(terms.drift_term, p);
    let (a, x, e) = (terms.drift_term.value(), p.value(), terms.exponent(z).value());
    let bz = terms.vol_term.value() * z.value();
    let h = precision::SHARE as int;
    let bo = grid::BINADE * o;
    assert(o <= bo) by (nonlinear_arith)
        requires
            bo == grid::BINADE * o,
            0 < o,
            grid::BINADE >= 1,
    ;
    let (oa, ox, oe) = (o * a, o * x, o * e);
    let f = e - (a + x);
    assert(o * f == oe - oa - ox && o * (a + x) == oa + ox) by (nonlinear_arith)
        requires
            f == e - (a + x),
            oa == o * a,
            ox == o * x,
            oe == o * e,
    ;
    let (af, ay) = (abs(f) as int, abs(a + x) as int);
    let y = a + x;
    assert(abs(o * f) == o * af && abs(o * y) == o * ay && abs(oa) == o * abs(a))
        by (nonlinear_arith)
        requires
            0 < o,
            af == (if f < 0 { -f } else { f }),
            ay == (if y < 0 { -y } else { y }),
            oa == o * a,
    ;
    assert(h * (o * af) <= o * ay) by (nonlinear_arith)
        requires
            h * af <= ay,
            0 < o,
    ;
}

/// The horizon: `days` trading days are 1/252 of as many years, as a rounded
/// quotient, for every number of days.
pub proof fn lemma_years(days: usize)
    ensures
        path::years(days).finite(),
        !path::years(days).negative(),
        precision::SHARE * abs(252 * path::years(days).value() - days * binary64::one()) <= 4
            * (days * binary64::one()),
{
    let o = binary64::one();
    let n = Binary64::from_u64(days as u64);
    let k = Binary64::from_u64(252);
    lemma_pow2_pos(1074);
    lemma_one_is_large();
    precision::lemma_from_u64_error(days as u64);
    Binary64::lemma_from_u64_exact(252);
    grid::lemma_units_small(0);
    let (u, v) = (grid::units(n.magnitude()), 252 * o);
    precision::lemma_units_natural(n.magnitude());
    assert(u * o <= v * u) by (nonlinear_arith)
        requires
            v == 252 * o,
            0 <= u,
            0 < o,
    ;
    precision::lemma_rounding_bound(u * o, v, n.magnitude());
    grid::lemma_rounded(u * o, v);
    Binary64::lemma_pack(false, grid::rounded(u * o, v));
    precision::lemma_div_error(n, k);
    let y = path::years(days).value();
    let x = n.value();
    let h = precision::SHARE as int;
    let b = grid::BINADE as int;
    let e = 252 * y - x;
    assert((252 * o) * y - o * x == o * e) by (nonlinear_arith)
        requires
            e == 252 * y - x,
    ;
    let a = abs(e) as int;
    assert(abs(o * e) == o * a && o * abs(x) == o * x) by (nonlinear_arith)
        requires
            0 < o,
            0 <= x,
            a == (if e < 0 { -e } else { e }),
    ;
    assert(h * a <= x + 252 * b) by (nonlinear_arith)
        requires
            h * (o * a) <= o * x + b * (252 * o),
            0 < o,
    ;
    if days > 0 {
        assert(o <= days * o) by (nonlinear_arith)
            requires
                1 <= days,
                0 < o,
        ;
    } else {
        assert(0 * o == 0);
        assert(x == 0);
        assert(a == 0);
    }
}

/// Every 252 trading days make one year, exactly.
pub proof fn lemma_whole_years(k: u64)
    requires
        252 * k <= usize::MAX,
        252 * k <= 2 * grid::BINADE,
    ensures
        path::years((252 * k) as usize) == Binary64::from_u64(k),
{
    let o = binary64::one();
    let days = (252 * k) as u64;
    let (n, d, c) = (Binary64::from_u64(days), Binary64::from_u64(252), Binary64::from_u64(k));
    lemma_pow2_pos(1074);
    grid::lemma_units_small(0);
    Binary64::lemma_from_u64_exact(days);
    Binary64::lemma_from_u64_exact(252);
    Binary64::lemma_from_u64_exact(k);
    assert((days * o) * o == (252 * o) * (k * o)) by (nonlinear_arith)
        requires
            days == 252 * k,
    ;
    grid::lemma_rounded_exact(c.magnitude(), 252 * o);
    Binary64::lemma_pack(false, c.magnitude());
}

/// More days are no fewer years.
pub proof fn lemma_years_monotone(a: usize, b: usize)
    requires
        a <= b,
    ensures
        path::years(a).rank() <= path::years(b).rank(),
{
    let o = binary64::one();
    lemma_years(a);
    lemma_years(b);
    precision::lemma_from_u64_error(252);
    lemma_pow2_pos(1074);
    assert(a * o <= b * o) by (nonlinear_arith)
        requires
            a <= b,
            0 < o,
    ;
    grid::lemma_rounded(a * o, 1);
    grid::lemma_rounded(b * o, 1);
    grid::lemma_rounded_monotone(a * o, 1, b * o, 1);
    precision::lemma_from_u64_error(a as u64);
    precision::lemma_from_u64_error(b as u64);
    laws::lemma_div_monotone(
        Binary64::from_u64(a as u64),
        Binary64::from_u64(b as u64),
        Binary64::from_u64(252),
    );
}

/// The time step is one trading day, of which 252 make a year.
pub proof fn lemma_time_step()
    ensures
        path::time_step() == path::years(1),
        path::time_step().finite(),
        precision::SHARE * abs(252 * path::time_step().value() - binary64::one()) <= 4
            * binary64::one(),
{
    lemma_years(1);
    assert(1 * binary64::one() == binary64::one());
}

/// The model of a run: the price goes from one trading day to the next by the factor
/// exp((mu - volatility^2 / 2) * dt + volatility * sqrt(dt) * z), where z is that
/// day's shock, dt is a 252nd of a year, and mu the risk-free rate where the run
/// prices an option, and the expected return where it does not.
pub proof fn lemma_run(args: Args, shocks: Seq<Binary64>, exp: spec_fn(Binary64) -> Binary64)
    ensures
        ({
            let terms = StepTerms::new(
                args.volatility,
                args.spec_measure_drift(),
                path::time_step(),
            );
            let prices = path::walk(
                args.initial_price,
                shocks.map_values(|z: Binary64| exp(terms.exponent(z))),
            );
            let mu = if args.strike is Some {
                args.risk_free_rate
            } else {
                args.drift
            };
            let dt = Binary64::from_u64(1).div(Binary64::from_u64(252));
            let v = args.volatility;
            let half = Binary64::ratio(1, 2);
            &&& prices.len() == shocks.len() + 1
            &&& prices[0] == args.initial_price
            &&& forall|i: int|
                0 <= i < shocks.len() ==> #[trigger] prices[i + 1] == prices[i].mul(
                    exp(
                        mu.sub(half.mul(v).mul(v)).mul(dt).add(v.mul(dt.sqrt()).mul(shocks[i])),
                    ),
                )
        }),
{
    let terms = StepTerms::new(args.volatility, args.spec_measure_drift(), path::time_step());
    path::lemma_geometric_brownian_motion(args.initial_price, terms, shocks, exp);
}

/// The option that a run prices is struck at the strike price on the simulated stock,
/// in its market, and expires at the horizon of the simulation, which is a 252nd of
/// the number of days in years, as a rounded quotient, and what the settings report.
/// A run prices one exactly where it has a strike.
pub proof fn lemma_option_of_run(args: Args)
    ensures
        pricing::spec_option_of(args) is Some <==> args.strike is Some,
        pricing::spec_option_of(args) matches Some(option) ==> {
            &&& args.strike == Some(option.k)
            &&& option.s0 == args.initial_price
            &&& option.r == args.risk_free_rate
            &&& option.r == args.spec_measure_drift()
            &&& option.sigma == args.volatility
            &&& option.option_type == args.option_type
            &&& option.t == path::years(args.days)
            &&& option.t.finite()
            &&& precision::SHARE * abs(252 * option.t.value() - args.days * binary64::one()) <= 4
                * (args.days * binary64::one())
        },
{
    lemma_years(args.days);
}

/// Two runs that price an option over horizons of which one is longer price it at
/// expiries in that order.
pub proof fn lemma_expiry_follows_horizon(a: Args, b: Args)
    requires
        a.strike is Some,
        b.strike is Some,
        a.days <= b.days,
    ensures
        pricing::spec_option_of(a)->Some_0.t.rank() <= pricing::spec_option_of(b)->Some_0.t.rank(),
{
    lemma_years_monotone(a.days, b.days);
}

} // verus!
