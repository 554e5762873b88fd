//! What the normal distribution function comes to in binary64 arithmetic.
use crate::binary64;
use crate::binary64::Binary64;
use crate::grid;
use crate::interval;
use crate::laws;
use crate::precision;
use crate::pricing;
use vstd::arithmetic::power2::*;
use vstd::math::abs;
use vstd::prelude::*;

verus! {

/// From zero to one, as the exponential of a number is that is not positive.
pub open spec fn unit(x: Binary64) -> bool {
    x.finite() && 0 <= x.value() <= binary64::one()
}

/// A unit number is from zero to 2^e ticks.
pub(crate) proof fn lemma_unit(x: Binary64, e: nat)
    requires
        e <= 53,
    ensures
        unit(x) == interval::within(x, e, 0, pow2(e) as int),
{
    interval::lemma_tick(e);
    assert(0 * interval::tick(e) == 0);
}

/// The reciprocal of a number that is at least one.
proof fn lemma_reciprocal(q: Binary64)
    requires
        !q.nan(),
        q.rank() >= Binary64::from_u64(1).rank(),
    ensures
        unit(Binary64::from_u64(1).div(q)),
{
    let one = Binary64::from_u64(1);
    let o = binary64::one();
    lemma_pow2_pos(1074);
    Binary64::lemma_from_u64_exact(1);
    grid::lemma_units_small(0);
    precision::lemma_units_natural(one.magnitude());
    if q.infinite() {
        Binary64::lemma_pack(false, 0);
    } else {
        if one.magnitude() < q.magnitude() {
            grid::lemma_units_increase(one.magnitude(), q.magnitude());
        }
        let v = grid::units(q.magnitude());
        assert(o * o <= v * o) by (nonlinear_arith)
            requires
                o <= v,
                0 < o,
        ;
        precision::lemma_rounding_bound(o * o, v, one.magnitude());
        grid::lemma_rounded(o * o, v);
        precision::lemma_units_natural(grid::rounded(o * o, v));
        Binary64::lemma_pack(false, grid::rounded(o * o, v));
    }
}

/// What the polynomial of the error function is taken at.
pub open spec fn abscissa(x: Binary64) -> Binary64 {
    let one = Binary64::from_u64(1);
    one.div(one.add(Binary64::ratio(3275911, 10000000).mul(x.abs())))
}

pub(crate) proof fn lemma_abscissa(x: Binary64)
    requires
        !x.nan(),
    ensures
        unit(abscissa(x)),
        x.zero() ==> abscissa(x) == Binary64::from_u64(1),
{
    let one = Binary64::from_u64(1);
    let zero = Binary64::from_u64(0);
    let c = Binary64::ratio(3275911, 10000000);
    let a = x.abs();
    let o = binary64::one();
    lemma_pow2_pos(1074);
    lemma2_to64();
    interval::lemma_within_ratio(3275911, 10000000, 10, 335, 336);
    interval::lemma_tick(10);
    grid::lemma_units_small(0);
    Binary64::lemma_pack(false, x.magnitude());
    Binary64::lemma_pack(false, grid::INF as int);
    Binary64::lemma_from_zero();
    Binary64::lemma_from_u64_exact(1);
    grid::lemma_rounded(3275911 * o, 10000000);
    Binary64::lemma_pack(false, grid::rounded(3275911 * o, 10000000));
    laws::lemma_signs(c, a);
    let p = c.mul(a);
    let n = grid::units(c.magnitude()) * grid::units(a.magnitude());
    grid::lemma_rounded(n, o);
    Binary64::lemma_pack(false, grid::rounded(n, o));
    assert(!p.nan() && !p.negative());
    laws::lemma_add_zero(one, zero);
    if p.finite() {
        laws::lemma_add_rounds(one, p);
    }
    laws::lemma_add_monotone(one, zero, p);
    lemma_reciprocal(one.add(p));
    if x.zero() {
        assert(grid::units(c.magnitude()) * 0 == 0 && o * 0 == 0);
        grid::lemma_rounded_exact(0, o);
        assert(p == zero);
        let q = one.add(zero);
        assert(q == one) by {
            grid::lemma_rounded_exact(one.magnitude(), 1);
            precision::lemma_units_natural(one.magnitude());
            Binary64::lemma_pack(false, one.magnitude());
        }
        grid::lemma_rounded_exact(one.magnitude(), o);
        Binary64::lemma_pack(false, one.magnitude());
    }
}

/// One step of Horner's rule: times `t`, plus `c`.
proof fn lemma_step(
    h: Binary64,
    t: Binary64,
    c: Binary64,
    e: nat,
    bounds: (int, int),
    at: (int, int),
    by: (int, int),
    product: (int, int),
)
    requires
        e <= 53,
        interval::within(h, e, bounds.0, bounds.1),
        interval::within(t, e, at.0, at.1),
        interval::within(c, e, by.0, by.1),
        0 <= at.0,
        interval::plain(product.0),
        interval::plain(product.1),
        interval::plain(product.0 + by.0),
        interval::plain(product.1 + by.1),
        pow2(e) * product.0 <= bounds.0 * at.0,
        pow2(e) * product.0 <= bounds.0 * at.1,
        bounds.1 * at.0 <= pow2(e) * product.1,
        bounds.1 * at.1 <= pow2(e) * product.1,
    ensures
        interval::within(h.mul(t).add(c), e, product.0 + by.0, product.1 + by.1),
{
    interval::lemma_within_mul(
        h,
        t,
        e,
        bounds.0,
        bounds.1,
        at.0,
        at.1,
        product.0,
        product.1,
    );
    interval::lemma_within_add(h.mul(t), c, e, product.0, product.1, by.0, by.1);
}

/// The polynomial of the error function is never negative, and less than 1.2; up
/// to one half it is less than a quarter.
proof fn lemma_polynomial_bounds(t: Binary64)
    requires
        unit(t),
    ensures
        interval::within(pricing::erf_polynomial(t), 10, 0, 1226),
        2 * t.value() <= binary64::one() ==> interval::within(
            pricing::erf_polynomial(t),
            10,
            0,
            240,
        ),
{
    lemma2_to64();
    lemma_unit(t, 10);
    let a1 = Binary64::ratio(254829592, 1000000000);
    let b2 = Binary64::ratio(284496736, 1000000000);
    let a3 = Binary64::ratio(1421413741, 1000000000);
    let b4 = Binary64::ratio(1453152027, 1000000000);
    let a5 = Binary64::ratio(1061405429, 1000000000);
    interval::lemma_within_ratio(254829592, 1000000000, 10, 260, 261);
    interval::lemma_within_ratio(284496736, 1000000000, 10, 291, 292);
    interval::lemma_within_ratio(1421413741, 1000000000, 10, 1455, 1456);
    interval::lemma_within_ratio(1453152027, 1000000000, 10, 1488, 1489);
    interval::lemma_within_ratio(1061405429, 1000000000, 10, 1086, 1087);
    interval::lemma_within_neg(b2, 10, 291, 292);
    interval::lemma_within_neg(b4, 10, 1488, 1489);
    let h1 = a5.mul(t).add(b4.neg());
    let h2 = h1.mul(t).add(a3);
    let h3 = h2.mul(t).add(b2.neg());
    let h4 = h3.mul(t).add(a1);
    interval::lemma_tick(10);
    if t.value() <= 512 * interval::tick(10) {
        lemma_step(a5, t, b4.neg(), 10, (1086, 1087), (0, 512), (-1489, -1488), (0, 544));
        lemma_step(h1, t, a3, 10, (-1489, -944), (0, 512), (1455, 1456), (-745, 0));
        lemma_step(h2, t, b2.neg(), 10, (710, 1456), (0, 512), (-292, -291), (0, 728));
        lemma_step(h3, t, a1, 10, (-292, 437), (0, 512), (260, 261), (-146, 219));
        interval::lemma_within_mul(h4, t, 10, 114, 480, 0, 512, 0, 240);
    } else {
        lemma_step(a5, t, b4.neg(), 10, (1086, 1087), (512, 1024), (-1489, -1488), (543, 1087));
        lemma_step(h1, t, a3, 10, (-946, -401), (512, 1024), (1455, 1456), (-946, -200));
        lemma_step(h2, t, b2.neg(), 10, (509, 1256), (512, 1024), (-292, -291), (254, 1256));
        lemma_step(h3, t, a1, 10, (-38, 965), (512, 1024), (260, 261), (-38, 965));
        interval::lemma_within_mul(h4, t, 10, 222, 1226, 512, 1024, 0, 1226);
    }
}

/// The coefficients of the polynomial of the error function, in ticks of 2^-40.
pub(crate) proof fn lemma_coefficients()
    ensures
        interval::within(Binary64::ratio(254829592, 1000000000), 40, 280188099505, 280188099506),
        interval::within(
            Binary64::ratio(284496736, 1000000000).neg(),
            40,
            -312807469297,
            -312807469296,
        ),
        interval::within(
            Binary64::ratio(1421413741, 1000000000),
            40,
            1562860936110,
            1562860936111,
        ),
        interval::within(
            Binary64::ratio(1453152027, 1000000000).neg(),
            40,
            -1597757550613,
            -1597757550612,
        ),
        interval::within(
            Binary64::ratio(1061405429, 1000000000),
            40,
            1167027610970,
            1167027610971,
        ),
{
    lemma2_to64_rest();
    let b2 = Binary64::ratio(284496736, 1000000000);
    let b4 = Binary64::ratio(1453152027, 1000000000);
    interval::lemma_within_ratio(254829592, 1000000000, 40, 280188099505, 280188099506);
    interval::lemma_within_ratio(284496736, 1000000000, 40, 312807469296, 312807469297);
    interval::lemma_within_ratio(1421413741, 1000000000, 40, 1562860936110, 1562860936111);
    interval::lemma_within_ratio(1453152027, 1000000000, 40, 1597757550612, 1597757550613);
    interval::lemma_within_ratio(1061405429, 1000000000, 40, 1167027610970, 1167027610971);
    interval::lemma_within_neg(b2, 40, 312807469296, 312807469297);
    interval::lemma_within_neg(b4, 40, 1597757550612, 1597757550613);
}

/// At one, the polynomial of the error function falls short of one by about 1e-9.
proof fn lemma_polynomial_at_one()
    ensures
        interval::within(
            pricing::erf_polynomial(Binary64::from_u64(1)),
            40,
            1099511626675,
            1099511626680,
        ),
{
    lemma2_to64_rest();
    let t = Binary64::from_u64(1);
    let k: int = 1099511627776;
    interval::lemma_within_one(40);
    lemma_coefficients();
    let a1 = Binary64::ratio(254829592, 1000000000);
    let a2 = Binary64::ratio(284496736, 1000000000).neg();
    let a3 = Binary64::ratio(1421413741, 1000000000);
    let a4 = Binary64::ratio(1453152027, 1000000000).neg();
    let a5 = Binary64::ratio(1061405429, 1000000000);
    let c1 = (280188099505int, 280188099506int);
    let c2 = (-312807469297int, -312807469296int);
    let c3 = (1562860936110int, 1562860936111int);
    let c4 = (-1597757550613int, -1597757550612int);
    let c5 = (1167027610970int, 1167027610971int);
    let h1 = a5.mul(t).add(a4);
    let h2 = h1.mul(t).add(a3);
    let h3 = h2.mul(t).add(a2);
    let h4 = h3.mul(t).add(a1);
    let s1 = (-430729939643int, -430729939641int);
    let s2 = (1132130996467int, 1132130996470int);
    let s3 = (819323527170int, 819323527174int);
    let s4 = (1099511626675int, 1099511626680int);
    lemma_step(a5, t, a4, 40, c5, (k, k), c4, c5);
    lemma_step(h1, t, a3, 40, s1, (k, k), c3, s1);
    lemma_step(h2, t, a2, 40, s2, (k, k), c2, s2);
    lemma_step(h3, t, a1, 40, s3, (k, k), c1, s3);
    interval::lemma_within_mul(h4, t, 40, s4.0, s4.1, k, k, s4.0, s4.1);
}

/// From one half to one, the two leading terms of the polynomial are largest at
/// one.
proof fn lemma_leading_terms(t: Binary64)
    requires
        unit(t),
        binary64::one() <= 2 * t.value(),
    ensures
        ({
            let a4 = Binary64::ratio(1453152027, 1000000000).neg();
            let a5 = Binary64::ratio(1061405429, 1000000000);
            interval::within(a5.mul(t).add(a4).mul(t), 40, -1597757550613, -430729939639)
        }),
{
    lemma2_to64_rest();
    let a4 = Binary64::ratio(1453152027, 1000000000).neg();
    let a5 = Binary64::ratio(1061405429, 1000000000);
    let k: int = 1099511627776;
    let o = binary64::one();
    let q = interval::tick(40);
    lemma_coefficients();
    lemma_unit(t, 40);
    interval::lemma_tick(40);
    interval::lemma_within_mul(a5, t, 40, 1167027610970, 1167027610971, 0, k, 0, 1167027610971);
    let p = a5.mul(t);
    let h = p.add(a4);
    interval::lemma_within_add(p, a4, 40, 0, 1167027610971, -1597757550613, -1597757550612);
    precision::lemma_mul_error(a5, t);
    precision::lemma_add_error(p, a4);
    lemma2_to64();
    lemma_pow2_adds(63, 1011);
    lemma_pow2_pos(1011);
    assert(o >= grid::BINADE) by (nonlinear_arith)
        requires
            o == pow2(63) * pow2(1011),
            pow2(63) == 0x8000_0000_0000_0000,
            pow2(1011) >= 1,
            grid::BINADE == 0x0010_0000_0000_0000,
    ;
    lemma_leading_arithmetic(o, q, a5.value(), a4.value(), t.value(), p.value(), h.value());
    interval::lemma_within_product(h, t, 40, -1597757550613, -430729939639);
}

/// The arithmetic of the bound: the leading terms are convex.
proof fn lemma_leading_arithmetic(o: int, q: int, a: int, c: int, t: int, p: int, h: int)
    requires
        o == 1099511627776 * q,
        0 < q,
        grid::BINADE <= o,
        0 <= t <= o <= 2 * t,
        0 <= a <= 1167027610971 * q,
        -1597757550613 * q <= c <= -1597757550612 * q,
        0 <= p <= 1167027610971 * q,
        -1597757550613 * q <= h,
        precision::SHARE * abs(o * p - a * t) <= abs(a * t) + grid::BINADE * o,
        precision::SHARE * abs(h - (p + c)) <= abs(p + c),
    ensures
        o * (-1597757550613 * q) <= h * t <= o * (-430729939639 * q),
{
    let at = a * t;
    assert(0 <= at <= 2 * (o * o)) by (nonlinear_arith)
        requires
            0 <= a <= 2 * o,
            0 <= t <= o,
            at == a * t,
    ;
    assert(grid::BINADE * o <= o * o) by (nonlinear_arith)
        requires
            grid::BINADE <= o,
            0 < o,
    ;
    let oo = o * o;
    let oq = o * q;
    assert(oo == 1099511627776 * oq && 0 < oq) by (nonlinear_arith)
        requires
            o == 1099511627776 * q,
            0 < q,
            oo == o * o,
            oq == o * q,
    ;
    assert(o * p <= at + oq);
    assert(h <= p + c + q);
    let m: int = 1597757550610;
    let l: int = 1167027610971;
    assert(o * h <= o * p + o * (-m * q) - oq) by (nonlinear_arith)
        requires
            h <= p + (-1597757550612 * q) + q,
            m == 1597757550610,
            0 < o,
            oq == o * q,
    ;
    let (lq, mq) = (l * q, m * q);
    assert(at <= lq * t) by (nonlinear_arith)
        requires
            a <= lq,
            0 <= t,
            at == a * t,
    ;
    assert(o * (-m * q) == -(o * mq)) by (nonlinear_arith)
        requires
            mq == m * q,
    ;
    let oh = o * h;
    assert(oh <= lq * t - mq * o) by {
        assert(o * mq == mq * o) by (nonlinear_arith);
    }
    // at t in place of one
    let s = lq * t - mq * o;
    assert(oh * t <= s * t) by (nonlinear_arith)
        requires
            oh <= s,
            0 <= t,
    ;
    let top = (lq - mq) * o;
    let slope = lq * (t + o) - mq * o;
    assert(s * t - top * o == (t - o) * slope) by (nonlinear_arith)
        requires
            s == lq * t - mq * o,
            top == (lq - mq) * o,
            slope == lq * (t + o) - mq * o,
    ;
    assert(slope >= 0) by (nonlinear_arith)
        requires
            slope == lq * (t + o) - mq * o,
            2 * (t + o) >= 3 * o,
            3 * lq >= 2 * mq,
            lq >= 0,
            o >= 0,
    ;
    assert((t - o) * slope <= 0) by (nonlinear_arith)
        requires
            t <= o,
            slope >= 0,
    ;
    let ht = h * t;
    assert(oh * t == ht * o) by (nonlinear_arith)
        requires
            oh == o * h,
            ht == h * t,
    ;
    assert(ht <= top) by (nonlinear_arith)
        requires
            ht * o <= top * o,
            0 < o,
    ;
    assert(top == o * (-430729939639 * q)) by (nonlinear_arith)
        requires
            top == (lq - mq) * o,
            lq - mq == -430729939639 * q,
    ;
    assert(o * (-1597757550613 * q) <= ht) by (nonlinear_arith)
        requires
            -1597757550613 * q <= h,
            0 <= t <= o,
            0 < q,
            ht == h * t,
    ;
}

/// The polynomial of the error function stays below one, by almost 1e-9.
pub(crate) proof fn lemma_polynomial_below_one(t: Binary64)
    requires
        unit(t),
    ensures
        interval::within(pricing::erf_polynomial(t), 40, 0, 1099511626682),
{
    lemma2_to64();
    lemma2_to64_rest();
    lemma_polynomial_bounds(t);
    interval::lemma_tick(10);
    interval::lemma_tick(40);
    let k: int = 1099511627776;
    assert(interval::tick(10) == 1073741824 * interval::tick(40));
    if 2 * t.value() > binary64::one() {
        lemma_coefficients();
        lemma_unit(t, 40);
        lemma_leading_terms(t);
        let a1 = Binary64::ratio(254829592, 1000000000);
        let a2 = Binary64::ratio(284496736, 1000000000).neg();
        let a3 = Binary64::ratio(1421413741, 1000000000);
        let a4 = Binary64::ratio(1453152027, 1000000000).neg();
        let a5 = Binary64::ratio(1061405429, 1000000000);
        let c1 = (280188099505int, 280188099506int);
        let c2 = (-312807469297int, -312807469296int);
        let g = a5.mul(t).add(a4).mul(t);
        let h2 = g.add(a3);
        let h3 = h2.mul(t).add(a2);
        let h4 = h3.mul(t).add(a1);
        let s2 = (-34896614503int, 1132130996472int);
        let s3 = (-347704083800int, 819323527176int);
        interval::lemma_within_add(
            g,
            a3,
            40,
            -1597757550613,
            -430729939639,
            1562860936110,
            1562860936111,
        );
        lemma_step(h2, t, a2, 40, s2, (0, k), c2, s2);
        lemma_step(h3, t, a1, 40, s3, (0, k), c1, s3);
        interval::lemma_within_mul(
            h4,
            t,
            40,
            -67515984295,
            1099511626682,
            0,
            k,
            -67515984295,
            1099511626682,
        );
    }
}

/// What the error function is but for its sign.
pub(crate) proof fn lemma_erf_size(x: Binary64, gauss: Binary64)
    requires
        !x.nan(),
        unit(gauss),
    ensures
        ({
            let one = Binary64::from_u64(1);
            let y = one.sub(pricing::erf_polynomial(abscissa(x)).mul(gauss));
            &&& interval::within(y, 40, 1094, 1099511627776)
            &&& pricing::erf(x, gauss) == if x.lt(Binary64::from_u64(0)) {
                y.neg()
            } else {
                y
            }
            &&& y.neg().value() == -y.value()
        }),
{
    lemma2_to64_rest();
    let one = Binary64::from_u64(1);
    let t = abscissa(x);
    let p = pricing::erf_polynomial(t);
    let w = p.mul(gauss);
    let y = one.sub(w);
    let k: int = 1099511627776;
    lemma_abscissa(x);
    lemma_polynomial_below_one(t);
    lemma_unit(gauss, 40);
    interval::lemma_within_one(40);
    interval::lemma_within_mul(p, gauss, 40, 0, 1099511626682, 0, k, 0, 1099511626682);
    interval::lemma_within_neg(w, 40, 0, 1099511626682);
    interval::lemma_within_add(one, w.neg(), 40, k, k, -1099511626682, 0);
    laws::lemma_mul_one(y);
    Binary64::lemma_pack(!y.negative(), y.magnitude());
}

/// The error function has the sign of its argument: it is negative below zero,
/// and positive from zero on, where it is 1e-9, about.
pub proof fn lemma_erf_sign(x: Binary64, gauss: Binary64)
    requires
        !x.nan(),
        unit(gauss),
    ensures
        x.lt(Binary64::from_u64(0)) ==> pricing::erf(x, gauss).value() < 0,
        !x.lt(Binary64::from_u64(0)) ==> pricing::erf(x, gauss).value() > 0,
{
    lemma_erf_size(x, gauss);
    interval::lemma_tick(40);
}

/// The error function lies between minus one and one.
pub proof fn lemma_erf_bounds(x: Binary64, gauss: Binary64)
    requires
        !x.nan(),
        unit(gauss),
    ensures
        pricing::erf(x, gauss).finite(),
        abs(pricing::erf(x, gauss).value()) <= binary64::one(),
{
    lemma2_to64_rest();
    lemma_erf_size(x, gauss);
    interval::lemma_tick(40);
    let one = Binary64::from_u64(1);
    let y = one.sub(pricing::erf_polynomial(abscissa(x)).mul(gauss));
    Binary64::lemma_pack(!y.negative(), y.magnitude());
}

/// The distribution function at `x`, from the error function: half of one plus it.
pub(crate) proof fn lemma_half(x: Binary64, gauss: Binary64)
    requires
        !x.nan(),
        unit(gauss),
    ensures
        ({
            let e = pricing::erf(pricing::norm_argument(x), gauss).value();
            let y = pricing::norm_cdf(x, gauss);
            &&& unit(y)
            &&& abs(e) <= binary64::one()
            &&& precision::SHARE * abs(2 * y.value() - (binary64::one() + e)) <= 3 * (
            binary64::one() + e) + 2 * grid::BINADE
        }),
{
    lemma2_to64();
    let o = binary64::one();
    lemma_pow2_pos(1074);
    let one = Binary64::from_u64(1);
    let half = Binary64::ratio(1, 2);
    let a = pricing::norm_argument(x);
    let e = pricing::erf(a, gauss);
    pricing::lemma_norm_argument(x);
    lemma_erf_bounds(a, gauss);
    Binary64::lemma_from_u64_exact(1);
    interval::lemma_tick(10);
    let t = interval::tick(10);
    assert(o == 1024 * t);
    interval::lemma_within_one(10);
    interval::lemma_within_ratio(1, 2, 10, 512, 512);
    interval::lemma_within_add(one, e, 10, 1024, 1024, -1024, 1024);
    let s = one.add(e);
    interval::lemma_within_mul(half, s, 10, 512, 512, 0, 2048, 0, 1024);
    lemma_unit(half.mul(s), 10);
    precision::lemma_add_error(one, e);
    precision::lemma_mul_error(half, s);
    let y = half.mul(s).value();
    let sv = s.value();
    let h = half.value();
    assert(2 * h == o);
    let b = grid::BINADE as int;
    let k = precision::SHARE as int;
    // in units of half of one
    assert(k * abs(2 * y - sv) <= sv + 2 * b) by {
        let m = 2 * y - sv;
        assert(o * y - h * sv == h * m) by (nonlinear_arith)
            requires
                2 * h == o,
                m == 2 * y - sv,
        ;
        let am = abs(m) as int;
        assert(abs(h * m) == h * am && abs(h * sv) == h * sv) by (nonlinear_arith)
            requires
                h > 0,
                sv >= 0,
                am == (if m < 0 { -m } else { m }),
        ;
        assert(k * am <= sv + 2 * b) by (nonlinear_arith)
            requires
                k * (h * am) <= h * sv + b * (2 * h),
                h > 0,
        ;
    }
    let exact = o + e.value();
    assert(k * abs(sv - exact) <= exact);
    assert(sv <= 2 * exact);
}

/// The distribution function takes values between zero and one.
pub proof fn lemma_norm_cdf_is_a_probability(x: Binary64, gauss: Binary64)
    requires
        !x.nan(),
        unit(gauss),
    ensures
        unit(pricing::norm_cdf(x, gauss)),
{
    lemma_half(x, gauss);
}

/// The distribution function is at least one half from zero on, and at most one
/// half below.
pub proof fn lemma_norm_cdf_side(x: Binary64, gauss: Binary64)
    requires
        !x.nan(),
        unit(gauss),
    ensures
        x.lt(Binary64::from_u64(0)) ==> 2 * pricing::norm_cdf(x, gauss).value() <= binary64::one(),
        !x.lt(Binary64::from_u64(0)) ==> 2 * pricing::norm_cdf(x, gauss).value()
            >= binary64::one(),
{
    lemma2_to64();
    let one = Binary64::from_u64(1);
    let half = Binary64::ratio(1, 2);
    let a = pricing::norm_argument(x);
    let e = pricing::erf(a, gauss);
    let s = one.add(e);
    Binary64::lemma_from_zero();
    pricing::lemma_norm_argument(x);
    lemma_erf_bounds(a, gauss);
    lemma_erf_sign(a, gauss);
    interval::lemma_tick(10);
    interval::lemma_within_one(10);
    interval::lemma_within_ratio(1, 2, 10, 512, 512);
    if x.lt(Binary64::from_u64(0)) {
        interval::lemma_within_add(one, e, 10, 1024, 1024, -1024, 0);
        interval::lemma_within_mul(half, s, 10, 512, 512, 0, 1024, 0, 512);
    } else {
        interval::lemma_within_add(one, e, 10, 1024, 1024, 0, 1024);
        interval::lemma_within_mul(half, s, 10, 512, 512, 1024, 2048, 512, 1024);
    }
}

/// The distribution is symmetric: away from zero, its values at `x` and at `-x`
/// add up to one, within 1e-15.
pub proof fn lemma_norm_cdf_complement(x: Binary64, gauss: Binary64)
    requires
        !x.nan(),
        !x.zero(),
        unit(gauss),
    ensures
        1_000_000_000_000_000 * abs(
            pricing::norm_cdf(x, gauss).value() + pricing::norm_cdf(x.neg(), gauss).value()
                - binary64::one(),
        ) <= binary64::one(),
{
    let o = binary64::one();
    let a = pricing::norm_argument(x);
    let e = pricing::erf(a, gauss);
    Binary64::lemma_pack(!x.negative(), x.magnitude());
    pricing::lemma_norm_argument(x);
    laws::lemma_div_neg(x, Binary64::from_u64(2).sqrt());
    lemma_erf_bounds(a, gauss);
    pricing::lemma_erf_odd(a, gauss);
    Binary64::lemma_pack(!e.negative(), e.magnitude());
    lemma_half(x, gauss);
    lemma_half(x.neg(), gauss);
    lemma2_to64_rest();
    lemma_pow2_strictly_increases(63, 1074);
    lemma_pow2_adds(63, 1011);
    lemma2_to64();
    lemma_pow2_strictly_increases(63, 1011);
}

/// At zero, the error function is 1e-9, about.
proof fn lemma_erf_at_zero(a: Binary64)
    requires
        a.zero(),
    ensures
        interval::within(pricing::erf(a, Binary64::from_u64(1)), 40, 1096, 1101),
{
    lemma2_to64_rest();
    let one = Binary64::from_u64(1);
    let k: int = 1099511627776;
    lemma_abscissa(a);
    lemma_polynomial_at_one();
    interval::lemma_within_one(40);
    let p = pricing::erf_polynomial(one);
    let w = p.mul(one);
    let (lo, hi) = (1099511626675int, 1099511626680int);
    interval::lemma_within_mul(p, one, 40, lo, hi, k, k, lo, hi);
    interval::lemma_within_neg(w, 40, lo, hi);
    interval::lemma_within_add(one, w.neg(), 40, k, k, -hi, -lo);
    let y = one.sub(w);
    laws::lemma_mul_one(y);
    Binary64::lemma_from_zero();
}

/// At zero, the distribution function is one half, within 1e-9.
proof fn lemma_norm_cdf_at_zero(x: Binary64)
    requires
        x.zero(),
    ensures
        interval::within(
            pricing::norm_cdf(x, Binary64::from_u64(1)),
            40,
            549755814436,
            549755814439,
        ),
{
    lemma2_to64_rest();
    let one = Binary64::from_u64(1);
    let a = pricing::norm_argument(x);
    pricing::lemma_norm_argument(x);
    lemma_erf_at_zero(a);
    let y = pricing::erf(a, one);
    let k: int = 1099511627776;
    let h: int = 549755813888;
    interval::lemma_within_one(40);
    interval::lemma_within_add(one, y, 40, k, k, 1096, 1101);
    interval::lemma_within_ratio(1, 2, 40, h, h);
    let s = one.add(y);
    let half = Binary64::ratio(1, 2);
    interval::lemma_within_mul(half, s, 40, h, h, k + 1096, k + 1101, h + 548, h + 551);
}

/// What the exponential function gives for the distribution function at `x`: a
/// number from zero to one, which is one where `x` is zero.
pub open spec fn gauss_at(x: Binary64, gauss: Binary64) -> bool {
    unit(gauss) && (x.zero() ==> gauss == Binary64::from_u64(1))
}

/// What is asked of an exponential function here: a number that is not positive
/// it takes to one between zero and one, and zero to one.
pub open spec fn exponential(exp: spec_fn(Binary64) -> Binary64) -> bool {
    forall|e: Binary64| #![trigger exp(e)]
        !e.nan() && e.rank() <= 0 ==> unit(exp(e)) && (e.zero() ==> exp(e) == Binary64::from_u64(
            1,
        ))
}

/// An exponential function gives the distribution function what it asks for, and
/// the same at `x` and at `-x`.
pub proof fn lemma_gauss(exp: spec_fn(Binary64) -> Binary64, x: Binary64)
    requires
        exponential(exp),
        !x.nan(),
    ensures
        gauss_at(x, exp(pricing::erf_exponent(pricing::norm_argument(x)))),
        exp(pricing::erf_exponent(pricing::norm_argument(x.neg()))) == exp(
            pricing::erf_exponent(pricing::norm_argument(x)),
        ),
{
    let a = pricing::norm_argument(x);
    let b = a.abs();
    let o = binary64::one();
    let e = pricing::erf_exponent(a);
    lemma_pow2_pos(1074);
    pricing::lemma_norm_argument(x);
    pricing::lemma_exponent_even(x);
    Binary64::lemma_pack(false, a.magnitude());
    Binary64::lemma_pack(true, a.magnitude());
    Binary64::lemma_pack(true, grid::INF as int);
    let u = grid::units(a.magnitude());
    grid::lemma_rounded(u * u, o);
    Binary64::lemma_pack(true, grid::rounded(u * u, o));
    assert(!e.nan() && e.rank() <= 0);
    if a.zero() {
        grid::lemma_units_small(0);
        assert(u * u == 0 && o * 0 == 0) by (nonlinear_arith)
            requires
                u == 0,
        ;
        grid::lemma_rounded_exact(0, o);
        assert(e.zero());
    }
    assert(unit(exp(e)));
}

/// The two tails of the distribution make up the whole: its values at `x` and at
/// `-x` add up to one, within 2e-9 at zero, and much closer everywhere else.
pub proof fn lemma_norm_cdf_tails(x: Binary64, gauss: Binary64)
    requires
        !x.nan(),
        gauss_at(x, gauss),
    ensures
        1_000_000_000 * abs(
            pricing::norm_cdf(x, gauss).value() + pricing::norm_cdf(x.neg(), gauss).value()
                - binary64::one(),
        ) <= 2 * binary64::one(),
{
    if x.zero() {
        Binary64::lemma_pack(!x.negative(), x.magnitude());
        lemma_norm_cdf_at_zero(x);
        lemma_norm_cdf_at_zero(x.neg());
        lemma2_to64_rest();
        interval::lemma_tick(40);
    } else {
        lemma_norm_cdf_complement(x, gauss);
    }
}

} // verus!
