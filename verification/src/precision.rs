//! How far rounding moves a result, and which bounds it keeps.
use crate::binary64;
use crate::binary64::Binary64;
use crate::grid;
use crate::stats;
use vstd::arithmetic::power2::*;
use vstd::math::abs;
use vstd::prelude::*;

verus! {

/// One less than 2^53: rounding a normal result moves it by less than its share
/// of one in this many.
pub const SHARE: u64 = 0x1f_ffff_ffff_ffff;

/// Rounding moves a ratio by half a gap at most.
proof fn lemma_half_gap(n: int, d: int)
    requires
        0 <= n,
        0 < d,
        grid::rounded(n, d) < grid::INF,
    ensures
        2 * abs(n - d * grid::units(grid::rounded(n, d))) <= d * grid::gap(grid::rounded(n, d)),
{
    let r = grid::rounded(n, d);
    grid::lemma_rounded(n, d);
    grid::lemma_units_step(r);
    grid::lemma_units_small(0);
    let u = grid::units(r);
    let g = grid::gap(r);
    assert(d * (u + (u + g)) == 2 * (d * u) + d * g) by (nonlinear_arith);
    if r > 0 {
        grid::lemma_units_step(r - 1);
        let h = grid::gap(r - 1);
        lemma_gaps_grow(r - 1);
        assert(d * ((u - h) + u) == 2 * (d * u) - d * h) by (nonlinear_arith);
        assert(d * h <= d * g) by (nonlinear_arith)
            requires
                h <= g,
                0 < d,
        ;
    } else {
        assert(d * 0 == 0);
        assert(0 < d * g) by (nonlinear_arith)
            requires
                0 < d,
                0 < g,
        ;
    }
}

pub(crate) proof fn lemma_gaps_grow(m: int)
    requires
        0 <= m,
    ensures
        grid::gap(m) <= grid::gap(m + 1),
{
    let b = grid::BINADE as int;
    lemma2_to64();
    if m + 1 >= b {
        lemma_pow2_pos(((m + 1) / b - 1) as nat);
        if m >= b && m / b != (m + 1) / b {
            assert((m + 1) / b == m / b + 1);
            lemma_pow2_unfold((m / b) as nat);
        }
    }
}

/// The gap above a normal number is its share of one in 2^52 at most.
pub(crate) proof fn lemma_gap_share(m: int)
    requires
        grid::BINADE <= m,
    ensures
        grid::BINADE * grid::gap(m) <= grid::units(m),
{
    reveal(grid::units);
    let b = grid::BINADE as int;
    let p = pow2((m / b - 1) as nat) as int;
    let f = m % b;
    lemma_pow2_pos((m / b - 1) as nat);
    assert((b + f) * p >= b * p) by (nonlinear_arith)
        requires
            f >= 0,
            p >= 0,
    ;
}

/// How far rounding moves a ratio: by its share of one in 2^53, about, and below
/// the normal numbers by half a unit. A whole number of units below the normal
/// numbers it does not move at all.
pub proof fn lemma_rounding_error(n: int, d: int)
    requires
        0 <= n,
        0 < d,
        grid::rounded(n, d) < grid::INF,
    ensures
        SHARE * abs(n - d * grid::units(grid::rounded(n, d))) <= n + grid::BINADE * d,
        d == 1 || n >= grid::BINADE * d ==> SHARE * abs(
            n - d * grid::units(grid::rounded(n, d)),
        ) <= n,
{
    let r = grid::rounded(n, d);
    let b = grid::BINADE as int;
    let u = grid::units(r);
    let g = grid::gap(r);
    lemma_half_gap(n, d);
    grid::lemma_rounded(n, d);
    if r >= b {
        lemma_gap_share(r);
        assert(d * (b * g) == b * (d * g) && d * (b * g) <= d * u) by (nonlinear_arith)
            requires
                b * g <= u,
                0 < d,
        ;
    } else {
        assert(d * g == d);
        if n >= b * d {
            lemma2_to64();
            grid::lemma_units_of_multiple(b, 0);
            assert(0 * b + b == b && b * pow2(0) == b);
            grid::lemma_rounded_exact(b, d);
            assert((d * b) * d <= n * d) by (nonlinear_arith)
                requires
                    b * d <= n,
                    0 < d,
            ;
            grid::lemma_rounded_monotone(d * b, d, n, d);
        }
    }
}

/// Rounding does not carry a ratio past a number that it does not exceed, nor
/// below one that it reaches.
pub proof fn lemma_rounding_bound(n: int, d: int, c: int)
    requires
        0 < d,
        0 <= c < grid::INF,
    ensures
        n <= d * grid::units(c) ==> grid::rounded(n, d) <= c && grid::units(grid::rounded(n, d))
            <= grid::units(c),
        d * grid::units(c) <= n ==> c <= grid::rounded(n, d) && grid::units(c) <= grid::units(
            grid::rounded(n, d),
        ),
{
    let r = grid::rounded(n, d);
    let m = d * grid::units(c);
    grid::lemma_rounded(n, d);
    grid::lemma_rounded_exact(c, d);
    if n <= m {
        assert(n * d <= m * d) by (nonlinear_arith)
            requires
                n <= m,
                0 < d,
        ;
        grid::lemma_rounded_monotone(n, d, m, d);
        if r < c {
            grid::lemma_units_increase(r, c);
        }
    }
    if m <= n {
        assert(m * d <= n * d) by (nonlinear_arith)
            requires
                m <= n,
                0 < d,
        ;
        grid::lemma_rounded_monotone(m, d, n, d);
        if c < r {
            grid::lemma_units_increase(c, r);
        }
    }
}

/// The number of units is never negative.
pub proof fn lemma_units_natural(m: int)
    requires
        0 <= m,
    ensures
        0 <= grid::units(m),
        m > 0 ==> 0 < grid::units(m),
{
    grid::lemma_units_small(0);
    if m > 0 {
        grid::lemma_units_increase(0, m);
    }
}

/// A finite sum differs from the exact one by its share of one in 2^53, about.
pub proof fn lemma_add_error(a: Binary64, b: Binary64)
    requires
        a.finite(),
        b.finite(),
        a.add(b).finite(),
    ensures
        SHARE * abs(a.add(b).value() - (a.value() + b.value())) <= abs(a.value() + b.value()),
{
    let s = a.value() + b.value();
    let n = abs(s) as int;
    grid::lemma_units_small(0);
    if s != 0 {
        grid::lemma_rounded(n, 1);
        Binary64::lemma_pack(s < 0, grid::rounded(n, 1));
        lemma_rounding_error(n, 1);
    } else {
        Binary64::lemma_pack(a.negative() && b.negative(), 0);
    }
}

/// The same of a difference.
pub proof fn lemma_sub_error(a: Binary64, b: Binary64)
    requires
        a.finite(),
        b.finite(),
        a.sub(b).finite(),
    ensures
        SHARE * abs(a.sub(b).value() - (a.value() - b.value())) <= abs(a.value() - b.value()),
{
    Binary64::lemma_pack(!b.negative(), b.magnitude());
    lemma_add_error(a, b.neg());
}

/// A finite product differs from the exact one by its share of one in 2^53,
/// about, or by half a unit.
pub proof fn lemma_mul_error(a: Binary64, b: Binary64)
    requires
        a.finite(),
        b.finite(),
        a.mul(b).finite(),
    ensures
        SHARE * abs(binary64::one() * a.mul(b).value() - a.value() * b.value()) <= abs(
            a.value() * b.value(),
        ) + grid::BINADE * binary64::one(),
{
    let o = binary64::one();
    let (u, v) = (grid::units(a.magnitude()), grid::units(b.magnitude()));
    let n = u * v;
    lemma_pow2_pos(1074);
    lemma_units_natural(a.magnitude());
    lemma_units_natural(b.magnitude());
    assert(0 <= n && (-u) * v == -n && u * (-v) == -n && (-u) * (-v) == n) by (nonlinear_arith)
        requires
            n == u * v,
            0 <= u,
            0 <= v,
    ;
    grid::lemma_rounded(n, o);
    let w = grid::units(grid::rounded(n, o));
    assert(o * (-w) == -(o * w)) by (nonlinear_arith);
    Binary64::lemma_pack(a.negative() != b.negative(), grid::rounded(n, o));
    lemma_rounding_error(n, o);
}

/// A finite quotient, multiplied back, differs from the dividend by its share of
/// one in 2^53, about, or by half a unit of the quotient.
pub proof fn lemma_div_error(a: Binary64, b: Binary64)
    requires
        a.finite(),
        b.finite(),
        !b.zero(),
        a.div(b).finite(),
    ensures
        SHARE * abs(b.value() * a.div(b).value() - binary64::one() * a.value()) <= binary64::one()
            * abs(a.value()) + grid::BINADE * abs(b.value()),
{
    let o = binary64::one();
    let (u, v) = (grid::units(a.magnitude()), grid::units(b.magnitude()));
    lemma_pow2_pos(1074);
    lemma_units_natural(a.magnitude());
    lemma_units_natural(b.magnitude());
    let n = u * o;
    assert(0 <= n && o * u == n && o * (-u) == -n) by (nonlinear_arith)
        requires
            n == u * o,
            0 <= u,
            0 < o,
    ;
    grid::lemma_rounded(n, v);
    let r = grid::rounded(n, v);
    let w = grid::units(r);
    Binary64::lemma_pack(a.negative() != b.negative(), r);
    lemma_rounding_error(n, v);
    assert(v * (-w) == -(v * w) && (-v) * w == -(v * w) && (-v) * (-w) == v * w)
        by (nonlinear_arith);
}

/// A whole number of 64 bits is off by its share of one in 2^53, about.
pub proof fn lemma_from_u64_error(n: u64)
    ensures
        Binary64::from_u64(n).finite(),
        !Binary64::from_u64(n).negative(),
        SHARE * abs(Binary64::from_u64(n).value() - n * binary64::one()) <= n * binary64::one(),
        n > 0 ==> Binary64::from_u64(n).value() >= binary64::one(),
{
    let o = binary64::one();
    lemma_pow2_pos(1074);
    stats::lemma_whole_finite(n);
    grid::lemma_rounded(n * o, 1);
    assert(0 <= n * o) by (nonlinear_arith)
        requires
            0 <= n,
            0 < o,
    ;
    Binary64::lemma_pack(false, grid::rounded(n * o, 1));
    lemma_rounding_error(n * o, 1);
    if n > 0 {
        let one = Binary64::from_u64(1);
        Binary64::lemma_from_u64_exact(1);
        assert(1 * o == o);
        assert(o <= n * o) by (nonlinear_arith)
            requires
                1 <= n,
                0 < o,
        ;
        lemma_rounding_bound(n * o, 1, one.magnitude());
    }
}

} // verus!
