//! The approximation of the error function by Abramowitz and Stegun, 7.1.26, in exact
//! arithmetic: that is what the error function computed here comes to, for every
//! argument, up to rounding.
//!
//! Exact values are in units of 2^-1074, of which `one()` make one; the coefficients
//! are in billionths.
use crate::accuracy;
use crate::binary64;
use crate::binary64::Binary64;
use crate::grid;
use crate::interval;
use crate::laws;
use crate::normal;
use crate::precision;
use crate::pricing;
use crate::scale;
use crate::sums;
use vstd::arithmetic::power2::*;
use vstd::math::abs;
use vstd::prelude::*;

verus! {

/// The polynomial a1 t + a2 t^2 + a3 t^3 + a4 t^4 + a5 t^5 at `t / one()`, by Horner's
/// rule, in billionths and units of one to the fifth.
pub open spec fn exact_polynomial(t: int) -> int {
    let o = binary64::one();
    let n1: int = 1061405429;
    let n2 = n1 * t - 1453152027 * o;
    let n3 = n2 * t + 1421413741 * (o * o);
    let n4 = n3 * t - 284496736 * (o * o * o);
    let n5 = n4 * t + 254829592 * (o * o * o * o);
    n5 * t
}

/// One step of Horner's rule, rounded: what the float is off by in ticks of 2^-40 grows
/// by three at most.
#[verifier::rlimit(40)]
proof fn lemma_horner(
    o: int,
    q: int,
    w: int,
    t: int,
    h: int,
    n: int,
    e: int,
    p: int,
    a: int,
    c: int,
    g: int,
)
    requires
        0 < q,
        0 < w,
        0 < o,
        0 <= t <= o,
        0 <= e,
        abs(1_000_000_000 * (w * h) - o * n) <= e * (1_000_000_000 * (w * q)),
        abs(o * p - h * t) <= o * q,
        abs(g - (p + a)) <= q,
        abs(1_000_000_000 * a - c * o) <= 1_000_000_000 * q,
    ensures
        abs(1_000_000_000 * ((w * o) * g) - o * (n * t + c * (w * o))) <= (e + 3) * (1_000_000_000
            * ((w * o) * q)),
{
    let d: int = 1_000_000_000;
    let (wo, wh) = (w * o, w * h);
    assert(0 < wo) by (nonlinear_arith)
        requires
            0 < w,
            0 < o,
            wo == w * o,
    ;
    let (f1, f2, f3) = (g - (p + a), o * p - h * t, d * a - c * o);
    let f4 = d * wh - o * n;
    let unit = d * (wo * q);
    assert(abs(wo * f1) <= wo * q) by (nonlinear_arith)
        requires
            -q <= f1 <= q,
            0 < wo,
    ;
    assert(abs(w * f2) <= wo * q) by (nonlinear_arith)
        requires
            -(o * q) <= f2 <= o * q,
            0 < w,
            wo == w * o,
    ;
    assert(abs(wo * f3) <= unit) by (nonlinear_arith)
        requires
            -(d * q) <= f3 <= d * q,
            0 < wo,
            unit == d * (wo * q),
    ;
    let small = e * (d * (w * q));
    assert(0 <= small) by (nonlinear_arith)
        requires
            small == e * (d * (w * q)),
            0 <= e,
            d == 1_000_000_000,
            0 < w,
            0 < q,
    ;
    assert(abs(f4 * t) <= small * o) by (nonlinear_arith)
        requires
            -small <= f4 <= small,
            0 <= t <= o,
            0 <= small,
    ;
    assert(small * o == e * unit) by (nonlinear_arith)
        requires
            small == e * (d * (w * q)),
            unit == d * (wo * q),
            wo == w * o,
    ;
    // the parts
    assert(wo * f1 == wo * g - wo * p - wo * a) by (nonlinear_arith)
        requires
            f1 == g - (p + a),
    ;
    assert(w * f2 == wo * p - wh * t) by (nonlinear_arith)
        requires
            f2 == o * p - h * t,
            wo == w * o,
            wh == w * h,
    ;
    assert(wo * f3 == d * (wo * a) - o * (c * wo)) by (nonlinear_arith)
        requires
            f3 == d * a - c * o,
    ;
    assert(f4 * t == d * (wh * t) - o * (n * t)) by (nonlinear_arith)
        requires
            f4 == d * wh - o * n,
    ;
    assert(o * (n * t + c * wo) == o * (n * t) + o * (c * wo)) by (nonlinear_arith);
    assert((e + 3) * unit == e * unit + 3 * unit) by (nonlinear_arith);
    assert(unit == d * (wo * q));
}

/// One step of Horner's rule stays within bounds, and is off by a tick of 2^-40 at most
/// in each operation.
proof fn lemma_operations(
    h: Binary64,
    t: Binary64,
    a: Binary64,
    bounds: (int, int),
    by: (int, int),
    product: (int, int),
)
    requires
        normal::unit(t),
        interval::within(h, 10, bounds.0, bounds.1),
        interval::within(a, 10, by.0, by.1),
        -2048 <= bounds.0 <= bounds.1 <= 2048,
        -2048 <= by.0 <= by.1 <= 2048,
        product.0 <= 0 && product.0 <= bounds.0,
        product.1 >= 0 && product.1 >= bounds.1,
        -2048 <= product.0,
        product.1 <= 2048,
    ensures
        interval::within(h.mul(t), 10, product.0, product.1),
        interval::within(h.mul(t).add(a), 10, product.0 + by.0, product.1 + by.1),
        abs(binary64::one() * h.mul(t).value() - h.value() * t.value()) <= binary64::one()
            * interval::tick(40),
        abs(h.mul(t).add(a).value() - (h.mul(t).value() + a.value())) <= interval::tick(40),
{
    lemma2_to64();
    lemma2_to64_rest();
    lemma_pow2_pos(1074);
    lemma_pow2_strictly_increases(63, 1074);
    let o = binary64::one();
    let q = interval::tick(40);
    interval::lemma_tick(10);
    interval::lemma_tick(40);
    normal::lemma_unit(t, 10);
    let p = h.mul(t);
    interval::lemma_within_mul(h, t, 10, bounds.0, bounds.1, 0, 1024, product.0, product.1);
    interval::lemma_within_add(p, a, 10, product.0, product.1, by.0, by.1);
    precision::lemma_mul_error(h, t);
    precision::lemma_add_error(p, a);
    let k = interval::tick(10);
    assert(bounds.0 * k >= -2 * o && bounds.1 * k <= 2 * o && product.0 * k >= -2 * o && product.1
        * k <= 2 * o && by.0 * k >= -2 * o && by.1 * k <= 2 * o) by (nonlinear_arith)
        requires
            o == 1024 * k,
            0 < k,
            -2048 <= bounds.0,
            bounds.1 <= 2048,
            -2048 <= product.0,
            product.1 <= 2048,
            -2048 <= by.0,
            by.1 <= 2048,
    ;
    let (hv, tv) = (h.value(), t.value());
    let (ht, oo, oq) = (hv * tv, o * o, o * q);
    assert(abs(ht) <= 2 * oo && grid::BINADE * o <= oo && oo == 1099511627776 * oq)
        by (nonlinear_arith)
        requires
            -2 * o <= hv <= 2 * o,
            0 <= tv <= o,
            ht == hv * tv,
            oo == o * o,
            oq == o * q,
            o == 1099511627776 * q,
            o >= grid::BINADE,
    ;
}

/// The polynomial is that of Abramowitz and Stegun, within 1.3e-11.
#[verifier::rlimit(40)]
pub proof fn lemma_polynomial_accuracy(t: Binary64)
    requires
        normal::unit(t),
    ensures
        pricing::erf_polynomial(t).finite(),
        ({
            let o = binary64::one();
            abs(
                1_000_000_000 * ((o * o * o * o) * pricing::erf_polynomial(t).value())
                    - exact_polynomial(t.value()),
            ) <= 14 * (1_000_000_000 * ((o * o * o * o) * interval::tick(40)))
        }),
{
    lemma2_to64();
    lemma2_to64_rest();
    lemma_pow2_pos(1074);
    interval::lemma_tick(10);
    interval::lemma_tick(40);
    normal::lemma_coefficients();
    let o = binary64::one();
    let q = interval::tick(40);
    let a1 = Binary64::ratio(254829592, 1000000000);
    let a2 = Binary64::ratio(284496736, 1000000000).neg();
    let a3 = Binary64::ratio(1421413741, 1000000000);
    let a4 = Binary64::ratio(1453152027, 1000000000).neg();
    let a5 = Binary64::ratio(1061405429, 1000000000);
    let b2 = Binary64::ratio(284496736, 1000000000);
    let b4 = Binary64::ratio(1453152027, 1000000000);
    interval::lemma_within_ratio(254829592, 1000000000, 10, 260, 261);
    interval::lemma_within_ratio(284496736, 1000000000, 10, 291, 292);
    interval::lemma_within_ratio(1421413741, 1000000000, 10, 1455, 1456);
    interval::lemma_within_ratio(1453152027, 1000000000, 10, 1488, 1489);
    interval::lemma_within_ratio(1061405429, 1000000000, 10, 1086, 1087);
    interval::lemma_within_neg(b2, 10, 291, 292);
    interval::lemma_within_neg(b4, 10, 1488, 1489);
    lemma_coefficient(o, q, a1.value(), 254829592, 280188099505, 280188099506);
    lemma_coefficient(o, q, a2.value(), -284496736, -312807469297, -312807469296);
    lemma_coefficient(o, q, a3.value(), 1421413741, 1562860936110, 1562860936111);
    lemma_coefficient(o, q, a4.value(), -1453152027, -1597757550613, -1597757550612);
    lemma_coefficient(o, q, a5.value(), 1061405429, 1167027610970, 1167027610971);
    let h1 = a5.mul(t).add(a4);
    let h2 = h1.mul(t).add(a3);
    let h3 = h2.mul(t).add(a2);
    let h4 = h3.mul(t).add(a1);
    lemma_operations(a5, t, a4, (1086, 1087), (-1489, -1488), (0, 1087));
    lemma_operations(h1, t, a3, (-1489, -401), (1455, 1456), (-1489, 0));
    lemma_operations(h2, t, a2, (-34, 1456), (-292, -291), (-34, 1456));
    lemma_operations(h3, t, a1, (-326, 1165), (260, 261), (-326, 1165));
    lemma_operations(h4, t, a1, (-66, 1426), (260, 261), (-66, 1426));
    let x = t.value();
    let d: int = 1_000_000_000;
    let n1: int = 1061405429;
    let n2 = n1 * x - 1453152027 * o;
    let n3 = n2 * x + 1421413741 * (o * o);
    let n4 = n3 * x - 284496736 * (o * o * o);
    let n5 = n4 * x + 254829592 * (o * o * o * o);
    let (w2, w3, w4) = (o * o, o * o * o, o * o * o * o);
    assert(0 < w2) by (nonlinear_arith)
        requires
            0 < o,
            w2 == o * o,
    ;
    assert(0 < w3) by (nonlinear_arith)
        requires
            0 < o,
            0 < w2,
            w3 == w2 * o,
    ;
    assert(0 < w4) by (nonlinear_arith)
        requires
            0 < o,
            0 < w3,
            w4 == w3 * o,
    ;
    assert(1 * a5.value() == a5.value() && 1 * q == q && 1 * o == o);
    assert(1 * (d * (1 * q)) == d * q);
    assert(o * n1 == n1 * o) by (nonlinear_arith);
    assert(-1453152027 * (1 * o) == -(1453152027 * o));
    lemma_horner(
        o,
        q,
        1,
        x,
        a5.value(),
        n1,
        1,
        a5.mul(t).value(),
        a4.value(),
        -1453152027,
        h1.value(),
    );
    lemma_horner(
        o,
        q,
        o,
        x,
        h1.value(),
        n2,
        4,
        h1.mul(t).value(),
        a3.value(),
        1421413741,
        h2.value(),
    );
    lemma_horner(
        o,
        q,
        w2,
        x,
        h2.value(),
        n3,
        7,
        h2.mul(t).value(),
        a2.value(),
        -284496736,
        h3.value(),
    );
    assert(-284496736 * w3 == -(284496736 * w3));
    lemma_horner(
        o,
        q,
        w3,
        x,
        h3.value(),
        n4,
        10,
        h3.mul(t).value(),
        a1.value(),
        254829592,
        h4.value(),
    );
    // the last product
    let p = h4.mul(t).value();
    lemma_last_product(o, q, w4, x, h4.value(), n5, p);
}

/// A coefficient is off by a tick of 2^-40 at most.
proof fn lemma_coefficient(o: int, q: int, a: int, c: int, lo: int, hi: int)
    requires
        o == 1099511627776 * q,
        0 < q,
        lo * q <= a <= hi * q,
        1_000_000_000 * (hi - 1) <= c * 1099511627776 <= 1_000_000_000 * (lo + 1),
    ensures
        abs(1_000_000_000 * a - c * o) <= 1_000_000_000 * q,
{
    let d: int = 1_000_000_000;
    let k: int = 1099511627776;
    let ck = c * k;
    assert(c * o == ck * q) by (nonlinear_arith)
        requires
            o == k * q,
            ck == c * k,
    ;
    assert(d * (hi * q) - ck * q <= d * q && ck * q - d * (lo * q) <= d * q) by (nonlinear_arith)
        requires
            d * (hi - 1) <= ck <= d * (lo + 1),
            0 < q,
    ;
}

proof fn lemma_last_product(o: int, q: int, w: int, t: int, h: int, n: int, p: int)
    requires
        0 < q,
        0 < w,
        0 < o,
        0 <= t <= o,
        abs(1_000_000_000 * (w * h) - o * n) <= 13 * (1_000_000_000 * (w * q)),
        abs(o * p - h * t) <= o * q,
    ensures
        abs(1_000_000_000 * (w * p) - n * t) <= 14 * (1_000_000_000 * (w * q)),
{
    let d: int = 1_000_000_000;
    let (wh, wp, wq) = (w * h, w * p, w * q);
    let f = o * p - h * t;
    let g = d * wh - o * n;
    assert(abs(w * f) <= o * wq) by (nonlinear_arith)
        requires
            -(o * q) <= f <= o * q,
            0 < w,
            wq == w * q,
    ;
    let s = 13 * (d * wq);
    assert(0 <= s && abs(g * t) <= s * o) by (nonlinear_arith)
        requires
            -s <= g <= s,
            0 <= t <= o,
            s == 13 * (d * wq),
            wq == w * q,
            0 < w,
            0 < q,
            d == 1_000_000_000,
    ;
    assert(w * f == o * wp - wh * t) by (nonlinear_arith)
        requires
            f == o * p - h * t,
            wp == w * p,
            wh == w * h,
    ;
    assert(g * t == d * (wh * t) - o * (n * t)) by (nonlinear_arith)
        requires
            g == d * wh - o * n,
    ;
    let z = d * wp - n * t;
    let bound = 14 * (d * wq);
    assert(o * z == d * (o * wp) - o * (n * t)) by (nonlinear_arith)
        requires
            z == d * wp - n * t,
    ;
    assert(s * o == 13 * (d * (o * wq)) && o * bound == 14 * (d * (o * wq))) by (nonlinear_arith)
        requires
            s == 13 * (d * wq),
            bound == 14 * (d * wq),
    ;
    assert(abs(o * z) <= o * bound);
    assert(abs(z) <= bound) by (nonlinear_arith)
        requires
            -(o * bound) <= o * z,
            o * z <= o * bound,
            0 < o,
    ;
}

/// The polynomial is taken at t = 1 / (1 + 0.3275911 |x|): t times that sum is one, up to
/// rounding, as long as nothing overflows. Both sides are taken ten million times.
pub proof fn lemma_abscissa_accuracy(x: Binary64)
    requires
        x.finite(),
        Binary64::from_u64(1).add(Binary64::ratio(3275911, 10000000).mul(x.abs())).finite(),
    ensures
        ({
            let o = binary64::one();
            let t = normal::abscissa(x).value();
            let sum = 10_000_000 * o + 3_275_911 * abs(x.value());
            precision::SHARE * abs(t * sum - 10_000_000 * (o * o)) <= 10 * (t * sum) + 10_000_000
                * (o * o) + 2 * (grid::BINADE * sum)
        }),
{
    let o = binary64::one();
    let one = Binary64::from_u64(1);
    let c = Binary64::ratio(3275911, 10000000);
    let a = x.abs();
    lemma_pow2_pos(1074);
    lemma2_to64();
    lemma2_to64_rest();
    lemma_pow2_strictly_increases(63, 1074);
    Binary64::lemma_pack(false, x.magnitude());
    Binary64::lemma_from_u64_exact(1);
    precision::lemma_units_natural(x.magnitude());
    grid::lemma_units_small(0);
    interval::lemma_tick(10);
    interval::lemma_within_ratio(3275911, 10000000, 10, 335, 336);
    grid::lemma_rounded(3275911 * o, 10000000);
    Binary64::lemma_pack(false, grid::rounded(3275911 * o, 10000000));
    precision::lemma_rounding_error(3275911 * o, 10000000);
    let p = c.mul(a);
    let q = one.add(p);
    sums::lemma_finite_addends(one, p);
    precision::lemma_mul_error(c, a);
    precision::lemma_add_error(one, p);
    laws::lemma_signs(c, a);
    precision::lemma_units_natural(p.magnitude());
    // the sum is at least one
    let n = o + p.value();
    grid::lemma_rounded(n, 1);
    precision::lemma_rounding_bound(n, 1, one.magnitude());
    Binary64::lemma_pack(false, grid::rounded(n, 1));
    assert(q.value() >= o);
    normal::lemma_abscissa(x);
    precision::lemma_div_error(one, q);
    let (v, w) = (c.value(), a.value());
    assert(0 <= v * w) by (nonlinear_arith)
        requires
            0 <= v,
            0 <= w,
    ;
    lemma_sum_bound(o, v, w, p.value(), q.value());
    lemma_quotient_bound(
        o,
        10_000_000 * o + 3_275_911 * w,
        q.value(),
        normal::abscissa(x).value(),
    );
}

#[verifier::rlimit(40)]
proof fn lemma_sum_bound(o: int, c: int, x: int, p: int, s: int)
    requires
        grid::BINADE <= o,
        0 <= c <= o,
        0 <= x,
        0 <= p,
        precision::SHARE * abs(3_275_911 * o - 10_000_000 * c) <= 3_275_911 * o,
        precision::SHARE * abs(o * p - c * x) <= abs(c * x) + grid::BINADE * o,
        precision::SHARE * abs(s - (o + p)) <= abs(o + p),
    ensures
        precision::SHARE * abs(10_000_000 * s - (10_000_000 * o + 3_275_911 * x)) <= 10 * (
        10_000_000 * o + 3_275_911 * x),
{
    let h = precision::SHARE as int;
    let b = grid::BINADE as int;
    let m: int = 10_000_000;
    let k: int = 3_275_911;
    let (cx, ox) = (c * x, o * x);
    assert(0 <= cx <= ox) by (nonlinear_arith)
        requires
            cx == c * x,
            ox == o * x,
            0 <= c <= o,
            0 <= x,
    ;
    let d = k * o - m * c;
    let f = abs(d) as int;
    assert(x * d == k * ox - m * cx && abs(x * d) == x * f && h * (x * f) <= k * ox)
        by (nonlinear_arith)
        requires
            d == k * o - m * c,
            cx == c * x,
            ox == o * x,
            0 <= x,
            f == (if d < 0 { -d } else { d }),
            h * f <= k * o,
    ;
    let z = m * p - k * x;
    let az = abs(z) as int;
    assert(o * z == m * (o * p) - k * ox && abs(o * z) == o * az) by (nonlinear_arith)
        requires
            z == m * p - k * x,
            ox == o * x,
            0 < o,
            az == (if z < 0 { -z } else { z }),
    ;
    assert(h * (o * az) <= m * (ox + b * o) + k * ox);
    let whole = (m + k) * x + m * b;
    assert(o * whole == m * (ox + b * o) + k * ox) by (nonlinear_arith)
        requires
            whole == (m + k) * x + m * b,
            ox == o * x,
    ;
    let ha = h * az;
    assert(o * ha == h * (o * az)) by (nonlinear_arith)
        requires
            ha == h * az,
    ;
    assert(ha <= whole) by (nonlinear_arith)
        requires
            o * ha <= o * whole,
            0 < o,
    ;
    assert(m * p <= k * x + az);
}

proof fn lemma_quotient_bound(o: int, sum: int, s: int, t: int)
    requires
        grid::BINADE <= o,
        0 <= t <= o,
        0 < sum,
        precision::SHARE * abs(10_000_000 * s - sum) <= 10 * sum,
        precision::SHARE * abs(s * t - o * o) <= o * abs(o) + grid::BINADE * abs(s),
    ensures
        precision::SHARE * abs(t * sum - 10_000_000 * (o * o)) <= 10 * (t * sum) + 10_000_000 * (o
            * o) + 2 * (grid::BINADE * sum),
{
    let h = precision::SHARE as int;
    let b = grid::BINADE as int;
    let m: int = 10_000_000;
    let (st, oo, ts) = (s * t, o * o, t * sum);
    let d = m * s - sum;
    let f = abs(d) as int;
    assert(t * d == m * st - ts && abs(t * d) == t * f && h * (t * f) <= 10 * ts)
        by (nonlinear_arith)
        requires
            d == m * s - sum,
            st == s * t,
            ts == t * sum,
            0 <= t,
            f == (if d < 0 { -d } else { d }),
            h * f <= 10 * sum,
    ;
    assert(m * abs(s) <= 2 * sum);
    assert(o * abs(o) == oo);
    let bs = b * abs(s);
    assert(m * bs <= 2 * (b * sum)) by (nonlinear_arith)
        requires
            m * abs(s) <= 2 * sum,
            bs == b * abs(s),
            0 <= b,
    ;
}

/// The error function is one less the polynomial at t, times the exponential, with the
/// sign of its argument: that is the approximation of Abramowitz and Stegun, within
/// 1.4e-11. Both sides are taken in billionths, and units of one to the sixth.
#[verifier::rlimit(40)]
pub proof fn lemma_erf_accuracy(x: Binary64, gauss: Binary64)
    requires
        !x.nan(),
        normal::unit(gauss),
    ensures
        ({
            let o = binary64::one();
            let w = o * o * o * o;
            let size = if x.lt(Binary64::from_u64(0)) {
                -pricing::erf(x, gauss).value()
            } else {
                pricing::erf(x, gauss).value()
            };
            let t = normal::abscissa(x).value();
            let taken = exact_polynomial(t) * gauss.value();
            abs(
                1_000_000_000 * (w * (o * size)) - (1_000_000_000 * (w * (o * o)) - taken),
            ) <= 15 * (1_000_000_000 * (w * (o * interval::tick(40))))
        }),
{
    let o = binary64::one();
    let q = interval::tick(40);
    let one = Binary64::from_u64(1);
    let t = normal::abscissa(x);
    let p = pricing::erf_polynomial(t);
    let m = p.mul(gauss);
    let y = one.sub(m);
    lemma_pow2_pos(1074);
    lemma2_to64();
    lemma2_to64_rest();
    lemma_pow2_strictly_increases(63, 1074);
    Binary64::lemma_from_u64_exact(1);
    interval::lemma_tick(40);
    normal::lemma_abscissa(x);
    normal::lemma_polynomial_below_one(t);
    lemma_polynomial_accuracy(t);
    normal::lemma_erf_size(x, gauss);
    normal::lemma_unit(gauss, 40);
    let k: int = 1099511627776;
    interval::lemma_within_mul(p, gauss, 40, 0, 1099511626682, 0, k, 0, 1099511626682);
    precision::lemma_mul_error(p, gauss);
    precision::lemma_sub_error(one, m);
    let (pv, g, mv, yv) = (p.value(), gauss.value(), m.value(), y.value());
    let (oo, oq, pg) = (o * o, o * q, pv * g);
    assert(0 <= pg <= oo && grid::BINADE * o <= oo && oo == k * oq) by (nonlinear_arith)
        requires
            0 <= pv <= o,
            0 <= g <= o,
            pg == pv * g,
            oo == o * o,
            oq == o * q,
            o == k * q,
            o >= grid::BINADE,
    ;
    let e = yv - (o - mv);
    let ae = abs(e) as int;
    assert(o * e == o * yv - oo + o * mv && abs(o * e) == o * ae) by (nonlinear_arith)
        requires
            e == yv - (o - mv),
            oo == o * o,
            0 < o,
            ae == (if e < 0 { -e } else { e }),
    ;
    let h = precision::SHARE as int;
    assert(h * (o * ae) <= oo) by (nonlinear_arith)
        requires
            h * ae <= o,
            0 < o,
            oo == o * o,
    ;
    assert(abs(o * yv - (oo - pg)) <= oq);
    let w = o * o * o * o;
    assert(0 < w) by (nonlinear_arith)
        requires
            w == o * o * o * o,
            0 < o,
    ;
    lemma_erf_bound(o, q, w, yv, pv, g, exact_polynomial(t.value()));
}

proof fn lemma_erf_bound(o: int, q: int, w: int, y: int, p: int, g: int, n: int)
    requires
        0 < q,
        0 < w,
        0 < o,
        0 <= g <= o,
        abs(o * y - (o * o - p * g)) <= o * q,
        abs(1_000_000_000 * (w * p) - n) <= 14 * (1_000_000_000 * (w * q)),
    ensures
        abs(1_000_000_000 * (w * (o * y)) - (1_000_000_000 * (w * (o * o)) - n * g)) <= 15 * (
        1_000_000_000 * (w * (o * q))),
{
    let d: int = 1_000_000_000;
    let (oy, oo, pg, oq, wp) = (o * y, o * o, p * g, o * q, w * p);
    let f = oy - (oo - pg);
    let e = d * wp - n;
    assert(abs(w * f) <= w * oq) by (nonlinear_arith)
        requires
            -oq <= f <= oq,
            0 < w,
    ;
    assert(w * f == w * oy - w * oo + w * pg) by (nonlinear_arith)
        requires
            f == oy - (oo - pg),
    ;
    let s = 14 * (d * (w * q));
    assert(0 <= s && abs(e * g) <= s * o) by (nonlinear_arith)
        requires
            -s <= e <= s,
            0 <= g <= o,
            s == 14 * (d * (w * q)),
            d == 1_000_000_000,
            0 < w,
            0 < q,
    ;
    assert(s * o == 14 * (d * (w * oq))) by (nonlinear_arith)
        requires
            s == 14 * (d * (w * q)),
            oq == o * q,
    ;
    assert(e * g == d * (w * pg) - n * g) by (nonlinear_arith)
        requires
            e == d * wp - n,
            wp == w * p,
            pg == p * g,
    ;
}

/// The error function is taken at x over the square root of two for the normal
/// distribution, up to rounding.
pub proof fn lemma_norm_argument_accuracy(x: Binary64)
    requires
        x.finite(),
        pricing::norm_argument(x).finite(),
    ensures
        ({
            let o = binary64::one();
            let root = Binary64::from_u64(2).sqrt().value();
            let a = pricing::norm_argument(x).value();
            &&& precision::SHARE * abs(root * a - o * x.value()) <= o * abs(x.value())
                + grid::BINADE * root
            &&& grid::BINADE * abs(root * root - 2 * (o * o)) <= 8 * (o * o)
            &&& 0 < root
        }),
{
    let o = binary64::one();
    let two = Binary64::from_u64(2);
    lemma_pow2_pos(1074);
    Binary64::lemma_from_u64_exact(2);
    pricing::lemma_root_of_two();
    precision::lemma_units_natural(two.sqrt().magnitude());
    accuracy::lemma_root_error(two);
    precision::lemma_div_error(x, two.sqrt());
    assert(o * (2 * o) == 2 * (o * o)) by (nonlinear_arith);
}

/// The distribution function is half of one and the error function, up to rounding.
pub proof fn lemma_norm_cdf_accuracy(x: Binary64, gauss: Binary64)
    requires
        !x.nan(),
        normal::unit(gauss),
    ensures
        ({
            let o = binary64::one();
            let e = pricing::erf(pricing::norm_argument(x), gauss).value();
            precision::SHARE * abs(2 * pricing::norm_cdf(x, gauss).value() - (o + e)) <= 3 * (o + e)
                + 2 * grid::BINADE
        }),
{
    normal::lemma_half(x, gauss);
}

/// The exponential function is applied to minus the square of the error function's
/// argument, up to rounding.
pub proof fn lemma_erf_exponent_accuracy(x: Binary64)
    requires
        pricing::erf_exponent(x).finite(),
    ensures
        x.finite(),
        precision::SHARE * abs(
            binary64::one() * pricing::erf_exponent(x).value() + x.value() * x.value(),
        ) <= x.value() * x.value() + grid::BINADE * binary64::one(),
{
    let a = x.abs();
    Binary64::lemma_pack(false, x.magnitude());
    Binary64::lemma_pack(true, x.magnitude());
    scale::lemma_finite_factors(a.neg(), a);
    precision::lemma_mul_error(a.neg(), a);
    precision::lemma_units_natural(x.magnitude());
    let u = grid::units(x.magnitude());
    assert((-u) * u == -(u * u) && (-u) * (-u) == u * u && u * u >= 0) by (nonlinear_arith);
}

/// Where the argument is so large that the sum overflows, the polynomial is taken at
/// zero.
pub proof fn lemma_abscissa_of_large(x: Binary64)
    requires
        !x.nan(),
        Binary64::from_u64(1).add(Binary64::ratio(3275911, 10000000).mul(x.abs())).infinite(),
    ensures
        normal::abscissa(x).zero(),
{
    let q = Binary64::from_u64(1).add(Binary64::ratio(3275911, 10000000).mul(x.abs()));
    let one = Binary64::from_u64(1);
    Binary64::lemma_from_u64_exact(1);
    Binary64::lemma_pack(one.negative() != q.negative(), 0);
}

/// For an infinite argument the error function is taken at that infinity.
pub proof fn lemma_norm_argument_of_infinity(x: Binary64)
    requires
        x.infinite(),
    ensures
        pricing::norm_argument(x).infinite(),
        pricing::norm_argument(x).negative() == x.negative(),
{
    pricing::lemma_root_of_two();
    Binary64::lemma_pack(x.negative(), grid::INF as int);
}

} // verus!
