//! The grid of magnitudes that a binary64 number can have, and rounding to it.
//!
//! A magnitude is the encoding of a number without its sign bit. Up to the
//! encoding of infinity, the magnitudes in order are the non-negative numbers
//! in order, and each is a whole multiple of the smallest one, 2^-1074. This
//! module measures them in that unit.
use vstd::arithmetic::power2::*;
use vstd::prelude::*;

verus! {

/// The magnitude of infinity.
pub const INF: u64 = 0x7ff0_0000_0000_0000;

/// How many magnitudes share one exponent: 2^52.
pub const BINADE: u64 = 0x0010_0000_0000_0000;

/// The number with magnitude `m`, in units of 2^-1074. At the magnitude of
/// infinity this is 2^1024, the first power of two out of range.
#[verifier::opaque]
pub open spec fn units(m: int) -> int {
    if m < BINADE {
        m
    } else {
        (BINADE + m % (BINADE as int)) * pow2((m / (BINADE as int) - 1) as nat)
    }
}

/// The distance from magnitude `m` to the next one, in units.
pub open spec fn gap(m: int) -> int {
    if m < BINADE {
        1
    } else {
        pow2((m / (BINADE as int) - 1) as nat) as int
    }
}

/// `n / d` units lie at or above the midpoint below magnitude `r`. The midpoint
/// itself belongs to the even one of its two neighbours.
pub open spec fn reaches(n: int, d: int, r: int) -> bool {
    if r % 2 == 0 {
        d * (units(r - 1) + units(r)) <= 2 * n
    } else {
        d * (units(r - 1) + units(r)) < 2 * n
    }
}

/// `r` is the magnitude nearest to `n / d` units, ties to even.
pub open spec fn nearest(n: int, d: int, r: int) -> bool {
    &&& 0 <= r <= INF
    &&& r > 0 ==> reaches(n, d, r)
    &&& r < INF ==> !reaches(n, d, r + 1)
}

/// The magnitude nearest to `n / d` units.
pub open spec fn rounded(n: int, d: int) -> int {
    choose|r: int| nearest(n, d, r)
}

/// The square root of `n` lies at or above the midpoint below magnitude `r`.
pub open spec fn root_reaches(n: int, r: int) -> bool {
    let twice = units(r - 1) + units(r);
    if r % 2 == 0 {
        twice * twice <= 4 * n
    } else {
        twice * twice < 4 * n
    }
}

/// `r` is the magnitude nearest to the square root of `n`, in units.
pub open spec fn nearest_root(n: int, r: int) -> bool {
    &&& 0 <= r <= INF
    &&& r > 0 ==> root_reaches(n, r)
    &&& r < INF ==> !root_reaches(n, r + 1)
}

/// The magnitude nearest to the square root of `n`, in units.
pub open spec fn rounded_root(n: int) -> int {
    choose|r: int| nearest_root(n, r)
}

/// The smallest magnitudes count units one by one.
pub proof fn lemma_units_small(m: int)
    requires
        0 <= m < BINADE,
    ensures
        units(m) == m,
{
    reveal(units);
}

/// Each magnitude lies above the one before it, by `gap`.
pub proof fn lemma_units_step(m: int)
    requires
        0 <= m,
    ensures
        units(m + 1) == units(m) + gap(m),
        gap(m) > 0,
{
    reveal(units);
    let s = BINADE as int;
    let e = m / s;
    let f = m % s;
    assert(m == e * s + f && 0 <= f < s);
    lemma2_to64();
    if m >= s {
        let p = pow2((e - 1) as nat) as int;
        lemma_pow2_pos((e - 1) as nat);
        if f == s - 1 {
            assert((m + 1) / s == e + 1 && (m + 1) % s == 0);
            lemma_pow2_unfold(e as nat);
            assert(units(m + 1) == s * pow2(e as nat));
            assert(s * (2 * p) == (s + (s - 1)) * p + p) by (nonlinear_arith);
            assert(units(m) == (s + f) * p);
        } else {
            assert((m + 1) / s == e && (m + 1) % s == f + 1);
            assert((s + (f + 1)) * p == (s + f) * p + p) by (nonlinear_arith);
        }
    } else if m == s - 1 {
        assert((m + 1) / s == 1 && (m + 1) % s == 0);
        assert(units(m + 1) == s * pow2(0));
    }
}

/// Magnitudes are in the order of the numbers they encode.
pub proof fn lemma_units_increase(a: int, b: int)
    requires
        0 <= a < b,
    ensures
        0 <= units(a) < units(b),
    decreases b,
{
    lemma_units_step(b - 1);
    lemma_units_small(0);
    if a < b - 1 {
        lemma_units_increase(a, b - 1);
    } else if a > 0 {
        lemma_units_increase(0, a);
    }
}

/// A multiple of a power of two, with at most 53 significant bits, is on the grid.
pub proof fn lemma_units_of_multiple(q: int, t: nat)
    requires
        0 <= q <= 2 * BINADE,
        t > 0 ==> q >= BINADE,
    ensures
        units(t * BINADE + q) == q * pow2(t),
{
    reveal(units);
    let s = BINADE as int;
    let m = t * s + q;
    lemma2_to64();
    if q == 2 * s {
        assert(m / s == t + 2 && m % s == 0);
        lemma_pow2_unfold(t + 1);
        let p = pow2(t) as int;
        assert(s * (2 * p) == (2 * s) * p) by (nonlinear_arith);
    } else if q >= s {
        assert(m / s == t + 1 && m % s == q - s);
    } else {
        assert(t == 0);
        assert(q * pow2(0) == q);
    }
}

/// A multiple of 2^t units, of at most 53 bits, has a magnitude of its own.
pub proof fn lemma_multiple_on_grid(n: int, t: nat) -> (c: int)
    requires
        0 <= n <= 2 * BINADE,
        t <= 2000,
        t >= 53,
    ensures
        0 <= c < INF,
        units(c) == n * pow2(t),
{
    if n == 0 {
        lemma_units_small(0);
        let p = pow2(t) as int;
        assert(0 * p == 0) by (nonlinear_arith);
        0
    } else {
        lemma2_to64_rest();
        assert(n * pow2(53) >= BINADE) by (nonlinear_arith)
            requires
                n >= 1,
                pow2(53) == 2 * BINADE,
        ;
        lemma_multiple_shifted(n, t, 53)
    }
}

proof fn lemma_multiple_shifted(n: int, t: nat, steps: nat) -> (c: int)
    requires
        0 < n <= 2 * BINADE,
        steps <= t <= 2000,
        n * pow2(steps) >= BINADE,
    ensures
        0 <= c < INF,
        units(c) == n * pow2(t),
    decreases steps,
{
    if n >= BINADE {
        lemma_units_of_multiple(n, t);
        t * BINADE + n
    } else {
        lemma2_to64();
        if steps == 0 {
            assert(n * pow2(0) == n);
        }
        lemma_pow2_unfold(steps);
        lemma_pow2_unfold(t);
        let p = pow2((steps - 1) as nat) as int;
        let q = pow2((t - 1) as nat) as int;
        assert(n * (2 * p) == (2 * n) * p && n * (2 * q) == (2 * n) * q) by (nonlinear_arith);
        lemma_multiple_shifted(2 * n, (t - 1) as nat, (steps - 1) as nat)
    }
}

/// A ratio that reaches a magnitude reaches every smaller one.
pub proof fn lemma_reaches_down(n: int, d: int, c: int, r: int)
    requires
        0 < d,
        1 <= c <= r,
        reaches(n, d, r),
    ensures
        reaches(n, d, c),
{
    if c < r {
        lemma_units_increase(c, r);
        if c > 1 {
            lemma_units_increase(c - 1, r - 1);
        } else {
            lemma_units_increase(0, r - 1);
        }
        let x = units(c - 1) + units(c);
        let y = units(r - 1) + units(r);
        assert(d * x < d * y) by (nonlinear_arith)
            requires
                0 < d,
                x < y,
        ;
    }
}

/// A larger ratio reaches whatever a smaller one reaches.
proof fn lemma_reaches_up(n1: int, d1: int, n2: int, d2: int, r: int)
    requires
        0 < d1,
        0 < d2,
        n1 * d2 <= n2 * d1,
        reaches(n1, d1, r),
    ensures
        reaches(n2, d2, r),
{
    let b = units(r - 1) + units(r);
    if r % 2 == 0 {
        assert(d2 * b <= 2 * n2) by (nonlinear_arith)
            requires
                0 < d1,
                0 < d2,
                n1 * d2 <= n2 * d1,
                d1 * b <= 2 * n1,
        ;
    } else {
        assert(d2 * b < 2 * n2) by (nonlinear_arith)
            requires
                0 < d1,
                0 < d2,
                n1 * d2 <= n2 * d1,
                d1 * b < 2 * n1,
        ;
    }
}

proof fn lemma_nearest_below(n: int, d: int, r: int)
    requires
        0 <= r <= INF,
        r < INF ==> !reaches(n, d, r + 1),
    ensures
        exists|c: int| nearest(n, d, c),
    decreases r,
{
    if r == 0 || reaches(n, d, r) {
        assert(nearest(n, d, r));
    } else {
        lemma_nearest_below(n, d, r - 1);
    }
}

/// Every ratio has exactly one nearest magnitude, and `rounded` is it.
pub proof fn lemma_rounded(n: int, d: int)
    requires
        0 < d,
    ensures
        nearest(n, d, rounded(n, d)),
        forall|r: int| #[trigger] nearest(n, d, r) ==> r == rounded(n, d),
{
    lemma_nearest_below(n, d, INF as int);
    let c = rounded(n, d);
    assert forall|r: int| #[trigger] nearest(n, d, r) implies r == c by {
        if r < c {
            lemma_reaches_down(n, d, r + 1, c);
        } else if c < r {
            lemma_reaches_down(n, d, c + 1, r);
        }
    }
}

/// Rounding keeps order: a larger ratio never rounds to a smaller magnitude.
pub proof fn lemma_rounded_monotone(n1: int, d1: int, n2: int, d2: int)
    requires
        0 < d1,
        0 < d2,
        n1 * d2 <= n2 * d1,
    ensures
        rounded(n1, d1) <= rounded(n2, d2),
{
    lemma_rounded(n1, d1);
    lemma_rounded(n2, d2);
    let a = rounded(n1, d1);
    let b = rounded(n2, d2);
    if b < a {
        lemma_reaches_down(n1, d1, b + 1, a);
        lemma_reaches_up(n1, d1, n2, d2, b + 1);
    }
}

/// Equal ratios round alike.
pub proof fn lemma_rounded_same(n1: int, d1: int, n2: int, d2: int)
    requires
        0 < d1,
        0 < d2,
        n1 * d2 == n2 * d1,
    ensures
        rounded(n1, d1) == rounded(n2, d2),
{
    lemma_rounded_monotone(n1, d1, n2, d2);
    lemma_rounded_monotone(n2, d2, n1, d1);
}

/// Rounding leaves a number that is on the grid where it is.
pub proof fn lemma_rounded_exact(c: int, d: int)
    requires
        0 < d,
        0 <= c <= INF,
    ensures
        rounded(d * units(c), d) == c,
{
    lemma_rounded(d * units(c), d);
    let u = units(c);
    if c > 0 {
        lemma_units_increase(c - 1, c);
        let v = units(c - 1);
        assert(d * (v + u) < 2 * (d * u)) by (nonlinear_arith)
            requires
                0 < d,
                v < u,
        ;
    }
    lemma_units_increase(c, c + 1);
    let w = units(c + 1);
    assert(d * (u + w) > 2 * (d * u)) by (nonlinear_arith)
        requires
            0 < d,
            u < w,
    ;
    assert(nearest(d * u, d, c));
}

/// No finite magnitude is nearer to the ratio than the one it rounds to.
pub proof fn lemma_rounded_closest(n: int, d: int, c: int)
    requires
        0 < d,
        0 <= c < INF,
        rounded(n, d) < INF,
    ensures
        vstd::math::abs(n - d * units(rounded(n, d))) <= vstd::math::abs(n - d * units(c)),
{
    lemma_rounded(n, d);
    let r = rounded(n, d);
    let u = units(r);
    let x = units(c);
    if c < r {
        lemma_units_increase(r - 1, r);
        if c < r - 1 {
            lemma_units_increase(c, r - 1);
        }
        let v = units(r - 1);
        assert(d * (v + u) == d * v + d * u) by (nonlinear_arith);
        assert(d * x <= d * v && d * v < d * u) by (nonlinear_arith)
            requires
                0 < d,
                x <= v,
                v < u,
        ;
    } else if r < c {
        lemma_units_increase(r, r + 1);
        if r + 1 < c {
            lemma_units_increase(r + 1, c);
        }
        let w = units(r + 1);
        assert(d * (u + w) == d * u + d * w) by (nonlinear_arith);
        assert(d * w <= d * x && d * u < d * w) by (nonlinear_arith)
            requires
                0 < d,
                w <= x,
                u < w,
        ;
    }
}

proof fn lemma_root_reaches_down(n: int, c: int, r: int)
    requires
        1 <= c <= r,
        root_reaches(n, r),
    ensures
        root_reaches(n, c),
{
    if c < r {
        lemma_units_increase(c, r);
        lemma_units_increase(0, c);
        if c > 1 {
            lemma_units_increase(c - 1, r - 1);
        } else {
            lemma_units_increase(0, r - 1);
        }
        let x = units(c - 1) + units(c);
        let y = units(r - 1) + units(r);
        assert(x * x < y * y) by (nonlinear_arith)
            requires
                0 <= x < y,
        ;
    }
}

/// A square root has one nearest magnitude only.
pub proof fn lemma_rounded_root(n: int, r: int)
    requires
        nearest_root(n, r),
    ensures
        rounded_root(n) == r,
{
    let c = rounded_root(n);
    assert(nearest_root(n, c));
    if r < c {
        lemma_root_reaches_down(n, r + 1, c);
    } else if c < r {
        lemma_root_reaches_down(n, c + 1, r);
    }
}

} // verus!
