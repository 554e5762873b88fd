//! Bounds on numbers that arithmetic carries along.
use crate::binary64;
use crate::binary64::Binary64;
use crate::grid;
use crate::precision;
use vstd::arithmetic::power2::*;
use vstd::math::abs;
use vstd::prelude::*;

verus! {

/// 2^-e, in units.
pub open spec fn tick(e: nat) -> int {
    pow2((1074 - e) as nat) as int
}

/// A finite number from `lo` to `hi` ticks.
pub open spec fn within(x: Binary64, e: nat, lo: int, hi: int) -> bool {
    x.finite() && lo * tick(e) <= x.value() <= hi * tick(e)
}

/// A whole number of ticks that is exact as a number.
pub open spec fn plain(k: int) -> bool {
    -2 * grid::BINADE <= k <= 2 * grid::BINADE
}

/// One is 2^e ticks.
pub proof fn lemma_tick(e: nat)
    requires
        e <= 53,
    ensures
        binary64::one() == pow2(e) * tick(e),
        0 < tick(e),
        0 < pow2(e),
{
    lemma_pow2_adds((1074 - e) as nat, e);
    lemma_pow2_pos((1074 - e) as nat);
    lemma_pow2_pos(e);
    let (p, q) = (pow2(e) as int, tick(e));
    assert(q * p == p * q) by (nonlinear_arith);
}

/// Rounding keeps a ratio between whole numbers of ticks.
proof fn lemma_rounds_within(negative: bool, n: int, d: int, e: nat, lo: int, hi: int)
    requires
        0 <= n,
        0 < d,
        e <= 53,
        plain(lo),
        plain(hi),
        ({
            let s = if negative {
                -n
            } else {
                n
            };
            d * (lo * tick(e)) <= s <= d * (hi * tick(e))
        }),
    ensures
        within(Binary64::pack(negative, grid::rounded(n, d)), e, lo, hi),
{
    let r = grid::rounded(n, d);
    let t = tick(e);
    lemma_tick(e);
    grid::lemma_rounded(n, d);
    precision::lemma_units_natural(r);
    let (far, near) = if negative {
        (-lo, -hi)
    } else {
        (hi, lo)
    };
    assert(d * ((-lo) * t) == -(d * (lo * t)) && d * ((-hi) * t) == -(d * (hi * t)))
        by (nonlinear_arith);
    assert((-lo) * t == -(lo * t) && (-hi) * t == -(hi * t)) by (nonlinear_arith);
    assert(0 <= far) by (nonlinear_arith)
        requires
            0 <= n <= d * (far * t),
            0 < d,
            0 < t,
    ;
    let c = grid::lemma_multiple_on_grid(far, (1074 - e) as nat);
    precision::lemma_rounding_bound(n, d, c);
    Binary64::lemma_pack(negative, r);
    if near >= 0 {
        let m = grid::lemma_multiple_on_grid(near, (1074 - e) as nat);
        precision::lemma_rounding_bound(n, d, m);
    } else {
        assert(near * t <= 0) by (nonlinear_arith)
            requires
                near < 0,
                0 < t,
        ;
    }
}

/// Bounds add up.
pub proof fn lemma_within_add(
    a: Binary64,
    b: Binary64,
    e: nat,
    lo1: int,
    hi1: int,
    lo2: int,
    hi2: int,
)
    requires
        e <= 53,
        within(a, e, lo1, hi1),
        within(b, e, lo2, hi2),
        plain(lo1 + lo2),
        plain(hi1 + hi2),
    ensures
        within(a.add(b), e, lo1 + lo2, hi1 + hi2),
{
    let t = tick(e);
    let s = a.value() + b.value();
    assert((lo1 + lo2) * t == lo1 * t + lo2 * t && (hi1 + hi2) * t == hi1 * t + hi2 * t)
        by (nonlinear_arith);
    if s == 0 {
        grid::lemma_units_small(0);
        Binary64::lemma_pack(a.negative() && b.negative(), 0);
    } else {
        lemma_rounds_within(s < 0, abs(s) as int, 1, e, lo1 + lo2, hi1 + hi2);
    }
}

/// Bounds change sign.
pub proof fn lemma_within_neg(a: Binary64, e: nat, lo: int, hi: int)
    requires
        within(a, e, lo, hi),
    ensures
        within(a.neg(), e, -hi, -lo),
{
    let t = tick(e);
    Binary64::lemma_pack(!a.negative(), a.magnitude());
    assert((-lo) * t == -(lo * t) && (-hi) * t == -(hi * t)) by (nonlinear_arith);
}

/// Bounds of an exact product are bounds of the rounded one.
pub proof fn lemma_within_product(a: Binary64, b: Binary64, e: nat, lo: int, hi: int)
    requires
        e <= 53,
        a.finite(),
        b.finite(),
        plain(lo),
        plain(hi),
        binary64::one() * (lo * tick(e)) <= a.value() * b.value() <= binary64::one() * (hi * tick(
            e,
        )),
    ensures
        within(a.mul(b), e, lo, hi),
{
    lemma_pow2_pos(1074);
    let (u, v) = (grid::units(a.magnitude()), grid::units(b.magnitude()));
    precision::lemma_units_natural(a.magnitude());
    precision::lemma_units_natural(b.magnitude());
    let n = u * v;
    assert(0 <= n && (-u) * v == -n && u * (-v) == -n && (-u) * (-v) == n) by (nonlinear_arith)
        requires
            n == u * v,
            0 <= u,
            0 <= v,
    ;
    lemma_rounds_within(a.negative() != b.negative(), n, binary64::one(), e, lo, hi);
}

/// Bounds of a product, where one factor has no minus sign before its value: the
/// outermost products of the bounds, rounded outwards to ticks.
pub proof fn lemma_within_mul(
    a: Binary64,
    b: Binary64,
    e: nat,
    lo1: int,
    hi1: int,
    lo2: int,
    hi2: int,
    lo: int,
    hi: int,
)
    requires
        e <= 53,
        within(a, e, lo1, hi1),
        within(b, e, lo2, hi2),
        0 <= lo2,
        plain(lo),
        plain(hi),
        pow2(e) * lo <= lo1 * lo2,
        pow2(e) * lo <= lo1 * hi2,
        hi1 * lo2 <= pow2(e) * hi,
        hi1 * hi2 <= pow2(e) * hi,
    ensures
        within(a.mul(b), e, lo, hi),
{
    let t = tick(e);
    let o = binary64::one();
    let p = pow2(e) as int;
    lemma_tick(e);
    lemma_product_bounds(a.value(), b.value(), t, p, lo1, hi1, lo2, hi2, lo, hi);
    assert(o * (lo * t) == (p * t) * (lo * t) && o * (hi * t) == (p * t) * (hi * t));
    lemma_within_product(a, b, e, lo, hi);
}

proof fn lemma_product_bounds(
    x: int,
    y: int,
    t: int,
    p: int,
    lo1: int,
    hi1: int,
    lo2: int,
    hi2: int,
    lo: int,
    hi: int,
)
    requires
        0 < t,
        0 <= lo2,
        lo1 * t <= x <= hi1 * t,
        lo2 * t <= y <= hi2 * t,
        p * lo <= lo1 * lo2,
        p * lo <= lo1 * hi2,
        hi1 * lo2 <= p * hi,
        hi1 * hi2 <= p * hi,
    ensures
        (p * t) * (lo * t) <= x * y <= (p * t) * (hi * t),
{
    assert(0 <= y) by (nonlinear_arith)
        requires
            0 <= lo2,
            0 < t,
            lo2 * t <= y,
    ;
    assert((lo1 * t) * y <= x * y && x * y <= (hi1 * t) * y) by (nonlinear_arith)
        requires
            lo1 * t <= x <= hi1 * t,
            0 <= y,
    ;
    lemma_line_below(y, t, p, lo1, lo2, hi2, lo);
    let (a, b) = (-hi1, -hi);
    assert(p * b <= a * lo2 && p * b <= a * hi2) by (nonlinear_arith)
        requires
            hi1 * lo2 <= p * hi,
            hi1 * hi2 <= p * hi,
            a == -hi1,
            b == -hi,
    ;
    lemma_line_below(y, t, p, a, lo2, hi2, b);
    assert((p * t) * (b * t) == -((p * t) * (hi * t)) && (a * t) * y == -((hi1 * t) * y))
        by (nonlinear_arith)
        requires
            a == -hi1,
            b == -hi,
    ;
}

proof fn lemma_line_below(y: int, t: int, p: int, k: int, lo: int, hi: int, bound: int)
    requires
        0 < t,
        lo * t <= y <= hi * t,
        p * bound <= k * lo,
        p * bound <= k * hi,
    ensures
        (p * t) * (bound * t) <= (k * t) * y,
{
    let tt = t * t;
    assert(0 < tt) by (nonlinear_arith)
        requires
            0 < t,
            tt == t * t,
    ;
    let pb = p * bound;
    assert((p * t) * (bound * t) == pb * tt) by (nonlinear_arith)
        requires
            pb == p * bound,
            tt == t * t,
    ;
    let end = if k >= 0 {
        lo
    } else {
        hi
    };
    let ke = k * end;
    assert((k * t) * (end * t) == ke * tt) by (nonlinear_arith)
        requires
            ke == k * end,
            tt == t * t,
    ;
    assert(pb * tt <= ke * tt) by (nonlinear_arith)
        requires
            pb <= ke,
            0 < tt,
    ;
    let kt = k * t;
    let et = end * t;
    assert(kt * et <= kt * y) by (nonlinear_arith)
        requires
            kt == k * t,
            0 < t,
            k >= 0 ==> et <= y,
            k < 0 ==> y <= et,
    ;
}

/// Bounds of a fraction.
pub proof fn lemma_within_ratio(n: u64, d: u64, e: nat, lo: int, hi: int)
    requires
        0 < d,
        e <= 53,
        plain(lo),
        plain(hi),
        lo * d <= pow2(e) * n <= hi * d,
    ensures
        within(Binary64::ratio(n, d), e, lo, hi),
{
    let t = tick(e);
    let o = binary64::one();
    let p = pow2(e) as int;
    lemma_tick(e);
    let (k, m) = (n as int, d as int);
    let pk = p * k;
    assert(k * o == pk * t) by (nonlinear_arith)
        requires
            o == p * t,
            pk == p * k,
    ;
    assert(m * (lo * t) <= pk * t && pk * t <= m * (hi * t) && 0 <= pk * t) by (nonlinear_arith)
        requires
            lo * m <= pk <= hi * m,
            0 <= k,
            0 < p,
            pk == p * k,
            0 < t,
    ;
    lemma_rounds_within(false, k * o, m, e, lo, hi);
}

/// The whole number one, in ticks.
pub proof fn lemma_within_one(e: nat)
    requires
        e <= 53,
    ensures
        within(Binary64::from_u64(1), e, pow2(e) as int, pow2(e) as int),
{
    Binary64::lemma_from_u64_exact(1);
    lemma_tick(e);
}

} // verus!
