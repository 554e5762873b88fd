//! How doubling goes through rounding.
use crate::binary64;
use crate::binary64::Binary64;
use crate::grid;
use vstd::arithmetic::power2::*;
use vstd::prelude::*;

verus! {

/// Twice `x`, rounded.
pub open spec fn twice(x: Binary64) -> Binary64 {
    Binary64::from_u64(2).mul(x)
}

/// Rounding `n / d` units loses nothing to underflow: the ratio is a number
/// already, or it is no less than the smallest normal one, 2^52 units.
pub open spec fn kept(n: int, d: int) -> bool {
    n == d * grid::units(grid::rounded(n, d)) || n >= d * grid::BINADE
}

/// The product of two finite numbers loses nothing to underflow.
pub open spec fn product_kept(a: Binary64, b: Binary64) -> bool {
    kept(grid::units(a.magnitude()) * grid::units(b.magnitude()), binary64::one())
}

/// One exponent up, the units are twice as many.
proof fn lemma_units_double(m: int)
    requires
        m >= grid::BINADE,
    ensures
        grid::units(m + grid::BINADE) == 2 * grid::units(m),
{
    reveal(grid::units);
    let s = grid::BINADE as int;
    let e = m / s;
    assert((m + s) / s == e + 1 && (m + s) % s == m % s);
    lemma_pow2_unfold(e as nat);
    let p = pow2((e - 1) as nat) as int;
    let q = s + m % s;
    assert(q * (2 * p) == 2 * (q * p)) by (nonlinear_arith);
}

/// Below the normal numbers, too.
proof fn lemma_units_double_small(m: int)
    requires
        0 <= m < grid::BINADE,
    ensures
        grid::units(2 * m) == 2 * grid::units(m),
{
    grid::lemma_units_small(m);
    grid::lemma_units_of_multiple(2 * m, 0);
    lemma2_to64();
    assert(0 * grid::BINADE + 2 * m == 2 * m);
    assert((2 * m) * pow2(0) == 2 * m);
}

/// Twice a ratio that loses nothing to underflow rounds to twice the number,
/// as long as it does not overflow.
pub proof fn lemma_rounded_twice(n: int, d: int)
    requires
        0 <= n,
        0 < d,
        kept(n, d),
        grid::rounded(2 * n, d) < grid::INF,
    ensures
        grid::rounded(n, d) < grid::INF,
        grid::units(grid::rounded(2 * n, d)) == 2 * grid::units(grid::rounded(n, d)),
{
    let r = grid::rounded(n, d);
    let b = grid::BINADE as int;
    grid::lemma_rounded(n, d);
    grid::lemma_rounded(2 * n, d);
    assert(n * d <= 2 * n * d) by (nonlinear_arith)
        requires
            0 <= n,
            0 < d,
    ;
    grid::lemma_rounded_monotone(n, d, 2 * n, d);
    let u = grid::units(r);
    if r < b {
        grid::lemma_units_small(r);
        if n >= d * b {
            grid::lemma_units_small(0);
            lemma2_to64();
            grid::lemma_units_of_multiple(b, 0);
            assert(0 * b + b == b && b * pow2(0) == b);
            grid::lemma_rounded_exact(b, d);
            assert((d * b) * d <= n * d) by (nonlinear_arith)
                requires
                    d * b <= n,
                    0 < d,
            ;
            grid::lemma_rounded_monotone(d * b, d, n, d);
        }
        lemma_units_double_small(r);
        assert(2 * (d * u) == d * (2 * u)) by (nonlinear_arith);
        grid::lemma_rounded_exact(2 * r, d);
    } else {
        let c = r + b;
        lemma_units_double(r);
        lemma_units_double(r + 1);
        assert(c % 2 == r % 2);
        let w = grid::units(r + 1);
        assert(d * (2 * u + 2 * w) == 2 * (d * (u + w))) by (nonlinear_arith);
        assert(!grid::reaches(2 * n, d, c + 1));
        if r > b {
            lemma_units_double(r - 1);
            let v = grid::units(r - 1);
            assert(d * (2 * v + 2 * u) == 2 * (d * (v + u))) by (nonlinear_arith);
        } else {
            lemma2_to64();
            grid::lemma_units_of_multiple(b, 0);
            assert(0 * b + b == b && b * pow2(0) == b);
            grid::lemma_units_of_multiple(2 * b - 1, 0);
            assert(0 * b + (2 * b - 1) == 2 * b - 1 && (2 * b - 1) * pow2(0) == 2 * b - 1);
            assert(d * ((2 * b - 1) + 2 * b) < 4 * (d * b)) by (nonlinear_arith)
                requires
                    0 < d,
            ;
        }
        assert(grid::reaches(2 * n, d, c));
        if c < grid::INF {
            assert(grid::nearest(2 * n, d, c));
        } else {
            grid::lemma_reaches_down(2 * n, d, grid::INF as int, c);
            assert(grid::nearest(2 * n, d, grid::INF as int));
        }
    }
}

/// A number of twice the units is twice the number.
pub proof fn lemma_is_twice(x: Binary64, y: Binary64)
    requires
        x.finite(),
        y.finite(),
        x.negative() == y.negative(),
        grid::units(y.magnitude()) == 2 * grid::units(x.magnitude()),
    ensures
        y == twice(x),
{
    let two = Binary64::from_u64(2);
    let o = binary64::one();
    lemma_pow2_pos(1074);
    Binary64::lemma_from_u64_exact(2);
    let u = grid::units(x.magnitude());
    assert((2 * o) * u == o * (2 * u)) by (nonlinear_arith);
    grid::lemma_rounded_exact(y.magnitude(), o);
    Binary64::lemma_pack(y.negative(), y.magnitude());
}

/// Twice a number has the same sign and twice the units, unless it overflows.
pub proof fn lemma_twice(x: Binary64)
    requires
        x.finite(),
        twice(x).finite(),
    ensures
        twice(x).negative() == x.negative(),
        twice(x).value() == 2 * x.value(),
        grid::units(twice(x).magnitude()) == 2 * grid::units(x.magnitude()),
{
    let o = binary64::one();
    let m = x.magnitude();
    let u = grid::units(m);
    lemma_pow2_pos(1074);
    Binary64::lemma_from_u64_exact(2);
    grid::lemma_units_small(0);
    if m > 0 {
        grid::lemma_units_increase(0, m);
    }
    assert((2 * o) * u == 2 * (o * u)) by (nonlinear_arith);
    assert(o * u >= 0) by (nonlinear_arith)
        requires
            o > 0,
            u >= 0,
    ;
    grid::lemma_rounded_exact(m, o);
    grid::lemma_rounded(2 * (o * u), o);
    Binary64::lemma_pack(x.negative(), grid::rounded(2 * (o * u), o));
    lemma_rounded_twice(o * u, o);
}

/// A product is finite only where both factors are.
pub proof fn lemma_finite_factors(a: Binary64, b: Binary64)
    requires
        a.mul(b).finite(),
    ensures
        a.finite(),
        b.finite(),
{
    Binary64::lemma_pack(a.negative() != b.negative(), grid::INF as int);
}

/// Doubling a factor doubles the product, unless it overflows or loses something
/// to underflow.
pub proof fn lemma_twice_mul(a: Binary64, y: Binary64)
    requires
        a.finite(),
        y.finite(),
        twice(a).finite(),
        product_kept(a, y),
        twice(a).mul(y).finite(),
    ensures
        a.mul(y).finite(),
        twice(a).mul(y) == twice(a.mul(y)),
{
    let o = binary64::one();
    lemma_pow2_pos(1074);
    lemma_twice(a);
    let (u, v) = (grid::units(a.magnitude()), grid::units(y.magnitude()));
    grid::lemma_units_small(0);
    if a.magnitude() > 0 {
        grid::lemma_units_increase(0, a.magnitude());
    }
    if y.magnitude() > 0 {
        grid::lemma_units_increase(0, y.magnitude());
    }
    assert(u * v >= 0 && (2 * u) * v == 2 * (u * v)) by (nonlinear_arith)
        requires
            u >= 0,
            v >= 0,
    ;
    grid::lemma_rounded(u * v, o);
    grid::lemma_rounded(2 * (u * v), o);
    let negative = a.negative() != y.negative();
    Binary64::lemma_pack(negative, grid::rounded(u * v, o));
    Binary64::lemma_pack(negative, grid::rounded(2 * (u * v), o));
    lemma_rounded_twice(u * v, o);
    lemma_is_twice(a.mul(y), twice(a).mul(y));
}

/// Doubling both sides doubles the difference, unless it overflows.
pub proof fn lemma_twice_sub(a: Binary64, b: Binary64)
    requires
        a.finite(),
        b.finite(),
        twice(a).finite(),
        twice(b).finite(),
        twice(a).sub(twice(b)).finite(),
    ensures
        a.sub(b).finite(),
        twice(a).sub(twice(b)) == twice(a.sub(b)),
{
    lemma_twice(a);
    lemma_twice(b);
    Binary64::lemma_pack(!b.negative(), b.magnitude());
    Binary64::lemma_pack(!twice(b).negative(), twice(b).magnitude());
    let s = a.value() - b.value();
    let n = vstd::math::abs(s) as int;
    assert(vstd::math::abs(2 * s) == 2 * n);
    grid::lemma_units_small(0);
    grid::lemma_rounded(n, 1);
    grid::lemma_rounded(2 * n, 1);
    if s != 0 {
        Binary64::lemma_pack(s < 0, grid::rounded(n, 1));
        Binary64::lemma_pack(s < 0, grid::rounded(2 * n, 1));
        if n < grid::BINADE {
            grid::lemma_units_small(n);
            grid::lemma_rounded_exact(n, 1);
        }
        lemma_rounded_twice(n, 1);
    } else {
        Binary64::lemma_pack(a.negative() && !b.negative(), 0);
    }
    lemma_is_twice(a.sub(b), twice(a).sub(twice(b)));
}

/// Doubling both sides leaves the quotient as it is.
pub proof fn lemma_twice_div(a: Binary64, b: Binary64)
    requires
        a.finite(),
        b.finite(),
        twice(a).finite(),
        twice(b).finite(),
    ensures
        twice(a).div(twice(b)) == a.div(b),
{
    lemma_twice(a);
    lemma_twice(b);
    let o = binary64::one();
    let (u, v) = (grid::units(a.magnitude()), grid::units(b.magnitude()));
    grid::lemma_units_small(0);
    if a.magnitude() > 0 {
        grid::lemma_units_increase(0, a.magnitude());
    }
    if twice(a).magnitude() > 0 {
        grid::lemma_units_increase(0, twice(a).magnitude());
    }
    if twice(b).magnitude() > 0 {
        grid::lemma_units_increase(0, twice(b).magnitude());
    }
    if b.magnitude() > 0 {
        grid::lemma_units_increase(0, b.magnitude());
        assert(((2 * u) * o) * v == (u * o) * (2 * v)) by (nonlinear_arith);
        grid::lemma_rounded_same((2 * u) * o, 2 * v, u * o, v);
    }
}

} // verus!
