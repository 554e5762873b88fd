//! How far a sum of many numbers, and a mean, are from the exact ones.
use crate::binary64;
use crate::binary64::Binary64;
use crate::grid;
use crate::laws;
use crate::precision;
use crate::scale;
use crate::stats;
use vstd::arithmetic::power2::*;
use vstd::math::abs;
use vstd::prelude::*;

verus! {

/// The exact sum of the members, in units.
pub open spec fn exact_total(s: Seq<Binary64>) -> int
    decreases s.len(),
{
    if s.len() == 0 {
        0
    } else {
        exact_total(s.drop_last()) + s.last().value()
    }
}

/// The exact sum of what the members are without their signs, in units.
pub open spec fn exact_size(s: Seq<Binary64>) -> int
    decreases s.len(),
{
    if s.len() == 0 {
        0
    } else {
        exact_size(s.drop_last()) + abs(s.last().value())
    }
}

/// A sum is finite only where its sides are.
pub proof fn lemma_finite_addends(a: Binary64, b: Binary64)
    requires
        a.add(b).finite(),
    ensures
        a.finite(),
        b.finite(),
{
}

/// The members of a finite sum are finite.
pub proof fn lemma_finite_members(s: Seq<Binary64>)
    requires
        stats::total(s).finite(),
    ensures
        forall|i: int| 0 <= i < s.len() ==> (#[trigger] s[i]).finite(),
    decreases s.len(),
{
    if s.len() > 0 {
        let rest = s.drop_last();
        lemma_finite_addends(stats::total(rest), s.last());
        lemma_finite_members(rest);
        assert forall|i: int| 0 <= i < s.len() implies (#[trigger] s[i]).finite() by {
            if i < rest.len() {
                assert(rest[i] == s[i]);
            }
        }
    }
}

/// The exact sum is no larger than the size.
pub proof fn lemma_size_bounds_total(s: Seq<Binary64>)
    ensures
        abs(exact_total(s)) <= exact_size(s),
    decreases s.len(),
{
    if s.len() > 0 {
        lemma_size_bounds_total(s.drop_last());
    }
}

/// The sum of n numbers is off by n in 2^52 of their size at most.
pub proof fn lemma_total_error(s: Seq<Binary64>)
    requires
        s.len() <= grid::BINADE / 2,
        stats::total(s).finite(),
    ensures
        grid::BINADE * abs(stats::total(s).value() - exact_total(s)) <= s.len() * exact_size(s),
    decreases s.len(),
{
    if s.len() == 0 {
        grid::lemma_units_small(0);
        assert(stats::total(s) == Binary64 { bits: binary64::SIGN });
        assert(0 * exact_size(s) == 0);
    } else {
        let rest = s.drop_last();
        let x = s.last();
        let t = stats::total(rest);
        lemma_finite_addends(t, x);
        lemma_total_error(rest);
        lemma_size_bounds_total(rest);
        precision::lemma_add_error(t, x);
        let (b, n) = (grid::BINADE as int, s.len() as int);
        let (size, before) = (exact_size(s), exact_size(rest));
        let e = abs(t.value() - exact_total(rest)) as int;
        let f = abs(t.add(x).value() - (t.value() + x.value())) as int;
        assert((n - 1) * before <= (n - 1) * size) by (nonlinear_arith)
            requires
                n >= 1,
                before <= size,
        ;
        assert((n - 1) * size == n * size - size) by (nonlinear_arith);
        // the error so far is at most half the size
        assert(2 * ((n - 1) * size) <= b * size) by (nonlinear_arith)
            requires
                2 * (n - 1) <= b,
                size >= 0,
        ;
        assert(2 * e <= size);
        assert(abs(t.value() + x.value()) <= size + e);
        assert(b * f <= size);
        assert(abs(t.add(x).value() - exact_total(s)) <= e + f);
    }
}

/// A mean is off from the quotient by its share of one in 2^53, about, or by half
/// a unit.
pub proof fn lemma_mean_error(s: Seq<Binary64>)
    requires
        0 < s.len() <= 2 * grid::BINADE,
        stats::mean(s).finite(),
    ensures
        stats::total(s).finite(),
        precision::SHARE * abs(s.len() * stats::mean(s).value() - stats::total(s).value()) <= abs(
            stats::total(s).value(),
        ) + grid::BINADE * s.len(),
{
    let t = stats::total(s);
    let n = s.len() as int;
    let k = Binary64::from_u64(s.len() as u64);
    let o = binary64::one();
    lemma_pow2_pos(1074);
    Binary64::lemma_from_u64_exact(s.len() as u64);
    let d = n * o;
    assert(d >= 1 && d == grid::units(k.magnitude())) by {
        assert(d >= 1) by (nonlinear_arith)
            requires
                n >= 1,
                o >= 1,
                d == n * o,
        ;
    }
    grid::lemma_units_small(0);
    Binary64::lemma_pack(t.negative(), grid::INF as int);
    let u = grid::units(t.magnitude());
    precision::lemma_units_natural(t.magnitude());
    assert(0 <= u * o) by (nonlinear_arith)
        requires
            0 <= u,
            0 < o,
    ;
    grid::lemma_rounded(u * o, d);
    let r = grid::rounded(u * o, d);
    let q = grid::units(r);
    Binary64::lemma_pack(t.negative(), r);
    precision::lemma_rounding_error(u * o, d);
    let h = precision::SHARE as int;
    let b = grid::BINADE as int;
    let e = u - n * q;
    assert(u * o - d * q == e * o) by (nonlinear_arith)
        requires
            d == n * o,
            e == u - n * q,
    ;
    assert(h * abs(e) <= u + b * n) by {
        let m = abs(e) as int;
        assert(abs(e * o) == m * o) by (nonlinear_arith)
            requires
                o > 0,
                m == (if e < 0 { -e } else { e }),
        ;
        assert(h * m <= u + b * n) by (nonlinear_arith)
            requires
                h * (m * o) <= u * o + b * (n * o),
                o > 0,
        ;
    }
    assert(n * (-q) == -(n * q)) by (nonlinear_arith);
}

/// The discounted mean of numbers without minus signs, against the exact one.
pub proof fn lemma_discounted_mean_error(s: Seq<Binary64>, discount: Binary64)
    requires
        0 < s.len() <= 1_000_000,
        forall|i: int| 0 <= i < s.len() ==> !(#[trigger] s[i]).negative(),
        !discount.negative(),
        discount.mul(stats::mean(s)).finite(),
    ensures
        ({
            let n = s.len() as int;
            let o = binary64::one();
            let b = grid::BINADE as int;
            let x = exact_total(s);
            let price = discount.mul(stats::mean(s)).value();
            precision::SHARE * abs(o * (n * price) - discount.value() * x) <= discount.value() * (6
                * x + (b + 1) * n + 2 * (n * x)) + b * (n * o)
        }),
{
    let n = s.len() as int;
    let o = binary64::one();
    lemma_pow2_pos(1074);
    let m = stats::mean(s);
    scale::lemma_finite_factors(discount, m);
    lemma_mean_error(s);
    lemma_total_error(s);
    lemma_size_of_unsigned(s);
    stats::lemma_total_sign(s);
    Binary64::lemma_from_u64_exact(s.len() as u64);
    laws::lemma_signs(stats::total(s), Binary64::from_u64(s.len() as u64));
    precision::lemma_units_natural(m.magnitude());
    precision::lemma_units_natural(discount.magnitude());
    precision::lemma_units_natural(stats::total(s).magnitude());
    precision::lemma_mul_error(discount, m);
    let (x, t, mv, d) = (exact_total(s), stats::total(s).value(), m.value(), discount.value());
    let price = discount.mul(m).value();
    lemma_discounted_bound(n, o, d, x, t, mv, price);
}

/// The arithmetic of the bound.
proof fn lemma_discounted_bound(n: int, o: int, d: int, x: int, t: int, m: int, price: int)
    requires
        0 < n <= 1_000_000,
        0 < o,
        0 <= d,
        0 <= x,
        0 <= t,
        0 <= m,
        grid::BINADE * abs(t - x) <= n * x,
        precision::SHARE * abs(n * m - t) <= t + grid::BINADE * n,
        precision::SHARE * abs(o * price - d * m) <= abs(d * m) + grid::BINADE * o,
    ensures
        precision::SHARE * abs(o * (n * price) - d * x) <= d * (6 * x + (grid::BINADE + 1) * n + 2
            * (n * x)) + grid::BINADE * (n * o),
{
    let b = grid::BINADE as int;
    let h = precision::SHARE as int;
    let e1 = o * price - d * m;
    let e2 = n * m - t;
    let e3 = t - x;
    let nx = n * x;
    let nm = n * m;
    assert(0 <= nx <= 1_000_000 * x) by (nonlinear_arith)
        requires
            0 < n <= 1_000_000,
            0 <= x,
            nx == n * x,
    ;
    assert(t <= 2 * x);
    assert(nm <= 4 * x + n);
    let dm = d * m;
    assert(0 <= dm && n * dm == d * nm) by (nonlinear_arith)
        requires
            0 <= d,
            0 <= m,
            dm == d * m,
            nm == n * m,
    ;
    // the three steps: price, mean, sum
    let (a1, a2, a3) = (abs(e1) as int, abs(e2) as int, abs(e3) as int);
    let op = o * price;
    assert(n * (op - dm) == n * op - n * dm && n * op == o * (n * price)) by (nonlinear_arith)
        requires
            op == o * price,
    ;
    assert(d * (nm - t) == d * nm - d * t && d * (t - x) == d * t - d * x) by (nonlinear_arith);
    assert(o * (n * price) - d * x == n * e1 + d * e2 + d * e3);
    assert(abs(n * e1) == n * a1 && abs(d * e2) == d * a2 && abs(d * e3) == d * a3)
        by (nonlinear_arith)
        requires
            0 < n,
            0 <= d,
            a1 == (if e1 < 0 { -e1 } else { e1 }),
            a2 == (if e2 < 0 { -e2 } else { e2 }),
            a3 == (if e3 < 0 { -e3 } else { e3 }),
    ;
    assert(h * (n * a1) <= d * nm + b * (n * o)) by (nonlinear_arith)
        requires
            h * a1 <= dm + b * o,
            n * dm == d * nm,
            0 < n,
    ;
    assert(h * (d * a2) <= d * (t + b * n)) by (nonlinear_arith)
        requires
            h * a2 <= t + b * n,
            0 <= d,
    ;
    assert(h * a3 <= 2 * nx);
    assert(h * (d * a3) <= d * (2 * nx)) by (nonlinear_arith)
        requires
            h * a3 <= 2 * nx,
            0 <= d,
    ;
    let whole = 6 * x + (b + 1) * n + 2 * nx;
    assert((b + 1) * n == b * n + n) by (nonlinear_arith);
    assert(nm + (t + b * n) + 2 * nx <= whole);
    assert(d * nm + d * (t + b * n) + d * (2 * nx) <= d * whole) by (nonlinear_arith)
        requires
            nm + (t + b * n) + 2 * nx <= whole,
            0 <= d,
    ;
}

pub proof fn lemma_size_of_unsigned(s: Seq<Binary64>)
    requires
        forall|i: int| 0 <= i < s.len() ==> !(#[trigger] s[i]).negative(),
    ensures
        exact_size(s) == exact_total(s),
        0 <= exact_total(s),
    decreases s.len(),
{
    if s.len() > 0 {
        let rest = s.drop_last();
        assert(s.last() == s[s.len() - 1]);
        assert forall|i: int| 0 <= i < rest.len() implies !(#[trigger] rest[i]).negative() by {
            assert(rest[i] == s[i]);
        }
        lemma_size_of_unsigned(rest);
        precision::lemma_units_natural(s.last().magnitude());
    }
}

} // verus!
