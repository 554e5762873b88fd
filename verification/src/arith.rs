//! Addition, multiplication, division and square root of magnitudes.
use crate::grid;
use crate::round;
use vstd::arithmetic::div_mod::*;
use vstd::arithmetic::power2::*;
use vstd::prelude::*;

verus! {

/// The significand and exponent of a finite magnitude.
pub(crate) fn decode(magnitude: u64) -> (parts: (u64, i32))
    requires
        magnitude < grid::INF,
    ensures
        grid::units(magnitude as int) == parts.0 * pow2(parts.1 as nat),
        parts.0 < 2 * grid::BINADE,
        0 <= parts.1 <= 2045,
        parts.1 == if magnitude < grid::BINADE { 0 } else { magnitude / grid::BINADE - 1 },
        parts.1 > 0 ==> parts.0 >= grid::BINADE,
        (parts.0 == 0) == (magnitude == 0),
{
    proof {
        reveal(grid::units);
        lemma2_to64();
        assert(magnitude * pow2(0) == magnitude);
    }
    if magnitude < grid::BINADE {
        (magnitude, 0)
    } else {
        (grid::BINADE + magnitude % grid::BINADE, (magnitude / grid::BINADE) as i32 - 1)
    }
}

/// The bits of a finite magnitude on the scale of approximations.
proof fn lemma_decoded(units: int, sig: int, exp: nat)
    requires
        units == sig * pow2(exp),
    ensures
        units * round::scale() == sig * round::weight(exp as int),
        round::weight(exp as int) > 0,
{
    lemma_pow2_adds(exp, 1200);
    lemma_pow2_pos(exp + 1200);
    let p = pow2(exp) as int;
    let k = round::scale();
    assert((sig * p) * k == sig * (p * k)) by (nonlinear_arith);
}

/// `sig` bits of exponent `from` as bits of exponent `to`, cut off below.
fn align(sig: u64, from: i32, to: i32) -> (cut: (u128, bool))
    requires
        sig < 2 * grid::BINADE,
        0 <= from <= 2045,
        -60 <= to <= 1985,
        from <= to + 60,
    ensures
        cut.0 < 0x0002_0000_0000_0000_0000_0000_0000_0000,
        cut.1 ==> from < to && cut.0 < grid::BINADE,
        !cut.1 ==> sig * round::weight(from as int) == cut.0 * round::weight(to as int),
        cut.1 ==> cut.0 * round::weight(to as int) < sig * round::weight(from as int)
            < cut.0 * round::weight(to as int) + round::weight(to as int),
{
    if to <= from {
        let k: u32 = (from - to) as u32;
        let p: u128 = round::power(k);
        proof {
            round::lemma_weight_adds(to as int, k as nat);
            lemma2_to64();
            lemma2_to64_rest();
            if k < 60 {
                lemma_pow2_strictly_increases(k as nat, 60);
            }
            assert(sig * p < 0x0020_0000_0000_0000 * 0x1000_0000_0000_0000) by (nonlinear_arith)
                requires
                    sig < 0x0020_0000_0000_0000,
                    0 < p <= 0x1000_0000_0000_0000,
            ;
            let w = round::weight(to as int);
            assert(sig * (w * p) == (sig * p) * w) by (nonlinear_arith);
        }
        ((sig as u128) * p, false)
    } else {
        let k: u32 = (to - from) as u32;
        proof {
            round::lemma_weight_adds(from as int, k as nat);
            lemma2_to64();
            lemma2_to64_rest();
        }
        if k >= 64 {
            proof {
                lemma_pow2_strictly_increases(53, k as nat);
                let w = round::weight(from as int);
                let p = pow2(k as nat) as int;
                assert(sig * w < w * p && (sig > 0 ==> 0 < sig * w)) by (nonlinear_arith)
                    requires
                        0 <= sig < p,
                        0 < w,
                ;
                assert(0 * round::weight(to as int) == 0);
                assert(sig == 0 ==> sig * w == 0) by (nonlinear_arith);
            }
            (0, sig > 0)
        } else {
            let p: u128 = round::power(k);
            let s: u128 = sig as u128;
            proof {
                vstd::bits::lemma_u128_shr_is_div(s, k as u128);
                lemma_fundamental_div_mod(s as int, p as int);
                lemma_mod_bound(s as int, p as int);
                lemma_pow2_unfold(k as nat);
                lemma_pow2_pos((k - 1) as nat);
            }
            let q: u128 = s >> (k as u128);
            proof {
                assert(p * q == q * p) by (nonlinear_arith);
                assert(2 * q <= q * p) by (nonlinear_arith)
                    requires
                        0 <= q,
                        2 <= p,
                ;
            }
            let rem: u128 = s - q * p;
            proof {
                let w = round::weight(from as int);
                assert(sig * w == q * (w * p) + rem * w) by (nonlinear_arith)
                    requires
                        sig == q * p + rem,
                ;
                assert(rem * w < w * p && (rem > 0 ==> 0 < rem * w)) by (nonlinear_arith)
                    requires
                        0 <= rem < p,
                        0 < w,
                ;
                assert(rem == 0 ==> rem * w == 0) by (nonlinear_arith);
            }
            (q, rem > 0)
        }
    }
}

/// The sum or difference of two finite magnitudes, rounded.
pub(crate) fn combine(high: u64, low: u64, subtract: bool) -> (r: u64)
    requires
        low <= high < grid::INF,
        0 < high,
        subtract ==> low < high,
    ensures
        r <= grid::INF,
        r == grid::rounded(
            if subtract {
                grid::units(high as int) - grid::units(low as int)
            } else {
                grid::units(high as int) + grid::units(low as int)
            },
            1,
        ),
{
    let (hs, he) = decode(high);
    let (ls, le) = decode(low);
    proof {
        if le > he {
            assert(low / grid::BINADE <= high / grid::BINADE);
        }
    }
    let exp: i32 = he - 60;
    let (cut, sticky) = align(ls, le, exp);
    let p: u128 = 0x1000_0000_0000_0000;
    let top: u128 = (hs as u128) * p;
    let ghost a = round::weight(exp as int);
    let ghost hu = grid::units(high as int);
    let ghost lu = grid::units(low as int);
    let ghost k = round::scale();
    proof {
        lemma2_to64_rest();
        lemma_decoded(hu, hs as int, he as nat);
        lemma_decoded(lu, ls as int, le as nat);
        round::lemma_weight_adds(exp as int, 60);
        assert(hs * (a * p) == top * a) by (nonlinear_arith)
            requires
                top == hs * p,
        ;
        lemma_pow2_pos(1200);
        assert((hu - lu) * k == hu * k - lu * k) by (nonlinear_arith);
        assert((hu + lu) * k == hu * k + lu * k) by (nonlinear_arith);
    }
    if subtract {
        proof {
            grid::lemma_units_increase(low as int, high as int);
            assert(hu * k > lu * k) by (nonlinear_arith)
                requires
                    hu > lu,
                    k > 0,
            ;
            assert(cut < top) by (nonlinear_arith)
                requires
                    cut * a < top * a,
                    0 < a,
            ;
        }
        let sig: u128 = if sticky {
            top - cut - 1
        } else {
            top - cut
        };
        proof {
            assert((top - cut) * a == top * a - cut * a) by (nonlinear_arith);
            assert((top - cut - 1) * a == top * a - cut * a - a) by (nonlinear_arith);
            assert(sig * a * 1 == sig * a && (sig + 1) * a * 1 == (sig + 1) * a);
            assert((sig + 1) * a == sig * a + a) by (nonlinear_arith);
            assert(round::approximates(hu - lu, 1, sig as int, exp as int, sticky));
        }
        let r: u64 = round::round(sig, exp, sticky);
        proof {
            round::lemma_settles_nearest(hu - lu, 1, sig as int, exp as int, sticky, r as int);
        }
        r
    } else {
        let sig: u128 = top + cut;
        proof {
            assert((top + cut) * a == top * a + cut * a) by (nonlinear_arith);
            assert(sig * a * 1 == sig * a && (sig + 1) * a * 1 == (sig + 1) * a);
            assert((sig + 1) * a == sig * a + a) by (nonlinear_arith);
            assert(round::approximates(hu + lu, 1, sig as int, exp as int, sticky));
        }
        let r: u64 = round::round(sig, exp, sticky);
        proof {
            round::lemma_settles_nearest(hu + lu, 1, sig as int, exp as int, sticky, r as int);
        }
        r
    }
}

/// The product of two finite magnitudes, rounded.
pub(crate) fn product(a: u64, b: u64) -> (r: u64)
    requires
        a < grid::INF,
        b < grid::INF,
    ensures
        r <= grid::INF,
        r == grid::rounded(grid::units(a as int) * grid::units(b as int), pow2(1074) as int),
{
    let (asig, ae) = decode(a);
    let (bsig, be) = decode(b);
    let ghost n = grid::units(a as int) * grid::units(b as int);
    let ghost d = pow2(1074) as int;
    proof {
        lemma_pow2_pos(1074);
        let x = pow2(ae as nat) as int;
        let y = pow2(be as nat) as int;
        let sa = asig as int;
        let sb = bsig as int;
        lemma_pow2_adds(ae as nat, be as nat);
        assert((sa * x) * (sb * y) == (sa * sb) * (x * y)) by (nonlinear_arith);
        assert(0 <= sa * sb < 0x0020_0000_0000_0000 * 0x0020_0000_0000_0000) by (nonlinear_arith)
            requires
                0 <= sa < 0x0020_0000_0000_0000,
                0 <= sb < 0x0020_0000_0000_0000,
        ;
        assert(sa > 0 && sb > 0 ==> sa * sb > 0) by (nonlinear_arith);
        assert(sa == 0 || sb == 0 ==> sa * sb == 0) by (nonlinear_arith);
    }
    let sig: u128 = (asig as u128) * (bsig as u128);
    let exp: i32 = ae + be - 1074;
    if sig == 0 {
        proof {
            assert(n == 0) by {
                let z = pow2((ae + be) as nat) as int;
                assert(sig * z == 0) by (nonlinear_arith)
                    requires
                        sig == 0,
                ;
            }
            grid::lemma_units_small(0);
            assert(d * 0 == 0) by (nonlinear_arith);
            grid::lemma_rounded_exact(0, d);
        }
        0
    } else {
        proof {
            lemma_decoded(n, sig as int, (ae + be) as nat);
            round::lemma_weight_adds(exp as int, 1074);
            let w = round::weight(exp as int);
            assert(sig * (w * d) == sig * w * d) by (nonlinear_arith);
        }
        let r: u64 = round::round(sig, exp, false);
        proof {
            round::lemma_settles_nearest(n, d, sig as int, exp as int, false, r as int);
        }
        r
    }
}

/// The significand of a finite, positive magnitude, shifted up to 53 bits, and
/// the exponent that goes with it.
fn normalize(a: u64) -> (parts: (u64, i32))
    requires
        0 < a < grid::INF,
    ensures
        grid::BINADE <= parts.0 < 2 * grid::BINADE,
        -52 <= parts.1 <= 2045,
        grid::units(a as int) * round::scale() == parts.0 * round::weight(parts.1 as int),
{
    let (sig, exp) = decode(a);
    proof {
        lemma_decoded(grid::units(a as int), sig as int, exp as nat);
    }
    if sig >= grid::BINADE {
        (sig, exp)
    } else {
        let len: u32 = round::bit_length(sig as u128);
        proof {
            lemma2_to64();
            lemma2_to64_rest();
            if len > 52 {
                if len > 53 {
                    lemma_pow2_strictly_increases(52, (len - 1) as nat);
                }
                assert(false);
            }
        }
        let k: u32 = 53 - len;
        let p: u128 = round::power(k);
        proof {
            lemma_pow2_adds(len as nat, k as nat);
            lemma_pow2_adds((len - 1) as nat, k as nat);
            let l = pow2(len as nat) as int;
            let h = pow2((len - 1) as nat) as int;
            assert(h * p <= sig * p && sig * p < l * p) by (nonlinear_arith)
                requires
                    h <= sig < l,
                    0 < p,
            ;
            round::lemma_weight_adds(exp - k, k as nat);
            let w = round::weight(exp - k);
            assert(sig * (w * p) == (sig * p) * w) by (nonlinear_arith);
        }
        (((sig as u128) * p) as u64, exp - k as i32)
    }
}

/// The quotient of two finite, positive magnitudes, rounded.
pub(crate) fn quotient(a: u64, b: u64) -> (r: u64)
    requires
        0 < a < grid::INF,
        0 < b < grid::INF,
    ensures
        r <= grid::INF,
        r == grid::rounded(grid::units(a as int) * pow2(1074), grid::units(b as int)),
{
    let (asig, ae) = normalize(a);
    let (bsig, be) = decode(b);
    let wide: u128 = (asig as u128) * 0x1_0000_0000_0000_0000;
    let div: u128 = bsig as u128;
    let sig: u128 = wide / div;
    let ghost n = grid::units(a as int) * pow2(1074);
    let ghost d = grid::units(b as int);
    proof {
        lemma_fundamental_div_mod(wide as int, div as int);
        lemma_mod_bound(wide as int, div as int);
        assert(sig >= 0x4000_0000_0000_0000) by (nonlinear_arith)
            requires
                wide == div * sig + wide % div,
                wide % div < div,
                div < 0x0020_0000_0000_0000,
                wide >= 0x0010_0000_0000_0000 * 0x1_0000_0000_0000_0000,
        ;
        assert(sig <= wide) by (nonlinear_arith)
            requires
                wide == div * sig + wide % div,
                wide % div >= 0,
                sig >= 0,
                div >= 1,
        ;
        assert(div * sig == sig * div) by (nonlinear_arith);
    }
    let rem: u128 = wide - sig * div;
    let exp: i32 = ae - be + 1010;
    proof {
        grid::lemma_units_increase(0, b as int);
        let k = round::scale();
        let u = grid::units(a as int);
        let o = pow2(1074) as int;
        let w = round::weight(exp as int);
        let p = pow2(be as nat) as int;
        let x = w * p;
        round::lemma_weight_adds(exp as int, be as nat);
        round::lemma_weight_adds(ae as int, 1074);
        round::lemma_weight_adds(ae + 1010, 64);
        lemma2_to64();
        let wa = round::weight(ae as int);
        assert(n * k == asig * (wa * o)) by (nonlinear_arith)
            requires
                n == u * o,
                u * k == asig * wa,
        ;
        assert(asig * (x * 0x1_0000_0000_0000_0000) == wide * x) by (nonlinear_arith)
            requires
                wide == asig * 0x1_0000_0000_0000_0000,
        ;
        assert(n * k == wide * x);
        assert(sig * w * d == (sig * div) * x) by (nonlinear_arith)
            requires
                d == div * p,
                x == w * p,
        ;
        assert((sig + 1) * w * d == (sig * div) * x + div * x) by (nonlinear_arith)
            requires
                d == div * p,
                x == w * p,
        ;
        assert(wide * x == (sig * div) * x + rem * x) by (nonlinear_arith)
            requires
                wide == sig * div + rem,
        ;
        assert(rem * x < div * x && (rem > 0 ==> 0 < rem * x) && (rem == 0 ==> rem * x == 0))
            by (nonlinear_arith)
            requires
                0 <= rem < div,
                0 < x,
        ;
        assert(round::approximates(n, d, sig as int, exp as int, rem > 0));
    }
    let r: u64 = round::round(sig, exp, rem > 0);
    proof {
        round::lemma_settles_nearest(n, d, sig as int, exp as int, rem > 0, r as int);
    }
    r
}

/// The magnitude nearest to a whole number.
pub(crate) fn whole(n: u64) -> (r: u64)
    ensures
        r <= grid::INF,
        r == grid::rounded(n * pow2(1074), 1),
{
    if n == 0 {
        proof {
            grid::lemma_units_small(0);
            grid::lemma_rounded_exact(0, 1);
            let o = pow2(1074) as int;
            assert(n * o == 0) by (nonlinear_arith)
                requires
                    n == 0,
            ;
        }
        0
    } else {
        let ghost v = n * pow2(1074);
        proof {
            lemma_decoded(v, n as int, 1074);
            let w = round::weight(1074);
            assert(n * w * 1 == n * w);
        }
        let r: u64 = round::round(n as u128, 1074, false);
        proof {
            round::lemma_settles_nearest(v, 1, n as int, 1074, false, r as int);
        }
        r
    }
}

/// The whole part of a magnitude below 2^64, whether anything is left over, and
/// whether that is at least one half.
pub(crate) fn whole_part(a: u64) -> (parts: (u128, bool, bool))
    requires
        a < 1087 * grid::BINADE,
    ensures
        ({
            let one = pow2(1074) as int;
            let left = grid::units(a as int) % one;
            &&& parts.0 == grid::units(a as int) / one
            &&& parts.0 <= u64::MAX
            &&& parts.1 == (left > 0)
            &&& parts.2 == (2 * left >= one)
        }),
{
    let (sig, exp) = decode(a);
    let ghost one = pow2(1074) as int;
    let ghost u = grid::units(a as int);
    proof {
        lemma_pow2_pos(1074);
        lemma2_to64();
        lemma2_to64_rest();
    }
    if exp >= 1074 {
        let k: u32 = (exp - 1074) as u32;
        let p: u128 = round::power(k);
        proof {
            if k < 11 {
                lemma_pow2_strictly_increases(k as nat, 11);
            }
            assert(sig * p < 0x0020_0000_0000_0000 * 0x0800) by (nonlinear_arith)
                requires
                    sig < 0x0020_0000_0000_0000,
                    0 < p <= 0x0800,
            ;
            lemma_pow2_adds(1074, k as nat);
            assert(u == (sig * p) * one + 0) by (nonlinear_arith)
                requires
                    u == sig * (one * p),
            ;
            lemma_fundamental_div_mod_converse(u, one, sig * p, 0);
        }
        ((sig as u128) * p, false, false)
    } else {
        let k: u32 = (1074 - exp) as u32;
        let ghost x = pow2(exp as nat) as int;
        proof {
            lemma_pow2_pos(exp as nat);
            lemma_pow2_adds(exp as nat, k as nat);
        }
        if k >= 64 {
            proof {
                lemma_pow2_strictly_increases(54, k as nat);
                let p = pow2(k as nat) as int;
                assert(0 <= 2 * u < one && (sig > 0 ==> u > 0)) by (nonlinear_arith)
                    requires
                        u == sig * x,
                        one == x * p,
                        0 <= 2 * sig < p,
                        0 < x,
                ;
                assert(sig == 0 ==> u == 0) by (nonlinear_arith)
                    requires
                        u == sig * x,
                ;
                assert(u == 0 * one + u);
                lemma_fundamental_div_mod_converse(u, one, 0, u);
            }
            (0, sig > 0, false)
        } else {
            let p: u128 = round::power(k);
            let half: u128 = round::power(k - 1);
            let s: u128 = sig as u128;
            proof {
                vstd::bits::lemma_u128_shr_is_div(s, k as u128);
                lemma_fundamental_div_mod(s as int, p as int);
                lemma_mod_bound(s as int, p as int);
                lemma_pow2_unfold(k as nat);
            }
            let q: u128 = s >> (k as u128);
            proof {
                assert(p * q == q * p) by (nonlinear_arith);
                assert(q <= q * p) by (nonlinear_arith)
                    requires
                        0 <= q,
                        1 <= p,
                ;
            }
            let rem: u128 = s - q * p;
            proof {
                let l = rem * x;
                assert(u == q * one + l) by (nonlinear_arith)
                    requires
                        u == (q * p + rem) * x,
                        one == x * p,
                        l == rem * x,
                ;
                assert(0 <= l < one && (rem > 0 ==> l > 0) && (rem == 0 ==> l == 0) && (rem >= half
                    <==> 2 * l >= one)) by (nonlinear_arith)
                    requires
                        l == rem * x,
                        one == x * p,
                        p == 2 * half,
                        0 <= rem < p,
                        0 < x,
                ;
                lemma_fundamental_div_mod_converse(u, one, q as int, l);
            }
            (q, rem > 0, rem >= half)
        }
    }
}

/// Magnitudes from 2^64 on.
pub(crate) proof fn lemma_large(a: int)
    requires
        1087 * grid::BINADE <= a,
    ensures
        grid::units(a) >= 0x1_0000_0000_0000_0000 * pow2(1074),
{
    let b = 1087 * grid::BINADE;
    grid::lemma_units_of_multiple(grid::BINADE as int, 1086);
    if b < a {
        grid::lemma_units_increase(b as int, a);
    }
    lemma2_to64();
    lemma2_to64_rest();
    lemma_pow2_adds(1074, 12);
    let o = pow2(1074) as int;
    assert(grid::BINADE * (o * 0x1000) == 0x1_0000_0000_0000_0000 * o) by (nonlinear_arith)
        requires
            grid::BINADE == 0x0010_0000_0000_0000,
    ;
}

/// The whole part of a square root.
fn integer_root(m: u128) -> (s: u128)
    requires
        m < 0x0004_0000_0000_0000_0000_0000_0000_0000,
    ensures
        s * s <= m < (s + 1) * (s + 1),
        s < 0x0200_0000_0000_0000,
{
    let mut s: u128 = 0;
    let mut bit: u128 = 0x0100_0000_0000_0000;
    let mut left: u32 = 57;
    proof {
        lemma2_to64_rest();
        assert(0x0200_0000_0000_0000 * 0x0200_0000_0000_0000
            == 0x0004_0000_0000_0000_0000_0000_0000_0000);
    }
    while left > 0
        invariant
            left <= 57,
            left > 0 ==> bit == pow2((left - 1) as nat),
            s + pow2(left as nat) <= 0x0200_0000_0000_0000,
            s * s <= m,
            m < (s + pow2(left as nat)) * (s + pow2(left as nat)),
        decreases left,
    {
        proof {
            lemma_pow2_unfold(left as nat);
            lemma_pow2_pos((left - 1) as nat);
        }
        let c: u128 = s + bit;
        proof {
            assert(c * c < 0x0200_0000_0000_0000 * 0x0200_0000_0000_0000) by (nonlinear_arith)
                requires
                    0 <= c < 0x0200_0000_0000_0000,
            ;
            assert(s + pow2(left as nat) == c + bit);
        }
        if c * c <= m {
            s = c;
        }
        left = left - 1;
        if left > 0 {
            proof {
                lemma_pow2_unfold(left as nat);
            }
            bit = bit / 2;
        }
    }
    proof {
        lemma2_to64();
    }
    s
}

/// An approximation of a square root settles where the square root rounds to.
proof fn lemma_settles_root(n: int, m: int, s: int, h: nat, r: int)
    requires
        0 <= s,
        s * s <= m < (s + 1) * (s + 1),
        n == m * pow2(h) * pow2(h),
        round::settles(s, h as int, s * s != m, r),
    ensures
        r == grid::rounded_root(n),
{
    let k = round::scale();
    lemma_pow2_pos(1200);
    lemma_pow2_pos(h);
    round::lemma_weight_adds(0, h);
    let p = pow2(h) as int;
    let w = round::weight(h as int);
    assert(w == k * p);
    let x = s * p;
    assert(2 * s * w == 2 * x * k) by (nonlinear_arith)
        requires
            w == k * p,
            x == s * p,
    ;
    assert(x * x == (s * s) * p * p) by (nonlinear_arith)
        requires
            x == s * p,
    ;
    assert((x + p) * (x + p) == ((s + 1) * (s + 1)) * p * p) by (nonlinear_arith)
        requires
            x == s * p,
    ;
    let ss = s * s;
    let tt = (s + 1) * (s + 1);
    assert(ss * p * p <= n && (ss != m ==> ss * p * p < n) && n < tt * p * p) by (nonlinear_arith)
        requires
            n == m * p * p,
            ss <= m < tt,
            0 < p,
    ;
    assert(0 <= x) by (nonlinear_arith)
        requires
            x == s * p,
            0 <= s,
            0 < p,
    ;
    if r > 0 {
        let b = grid::units(r - 1) + grid::units(r);
        grid::lemma_units_increase(r - 1, r);
        assert(b <= 2 * x && (b * k < 2 * x * k ==> b < 2 * x)) by (nonlinear_arith)
            requires
                b * k <= 2 * x * k,
                0 < k,
        ;
        assert(b * b <= 4 * (x * x) && (b < 2 * x ==> b * b < 4 * (x * x))) by (nonlinear_arith)
            requires
                0 <= b <= 2 * x,
        ;
        assert(grid::root_reaches(n, r));
    }
    if r < grid::INF {
        let b = grid::units(r) + grid::units(r + 1);
        grid::lemma_units_increase(r, r + 1);
        if ss != m {
            assert(b >= 2 * x + 2 * p) by (nonlinear_arith)
                requires
                    2 * x * k + 2 * w <= b * k,
                    w == k * p,
                    0 < k,
            ;
            assert(b * b >= 4 * ((x + p) * (x + p))) by (nonlinear_arith)
                requires
                    b >= 2 * (x + p),
                    x + p >= 0,
            ;
        } else {
            assert(b >= 2 * x && (2 * x * k < b * k ==> b > 2 * x)) by (nonlinear_arith)
                requires
                    2 * x * k <= b * k,
                    0 < k,
            ;
            assert(b * b >= 4 * (x * x) && (b > 2 * x ==> b * b > 4 * (x * x)))
                by (nonlinear_arith)
                requires
                    b >= 2 * x,
                    x >= 0,
            ;
        }
        assert(!grid::root_reaches(n, r + 1));
    }
    assert(grid::nearest_root(n, r));
    grid::lemma_rounded_root(n, r);
}

/// The square root of a finite, positive magnitude, rounded.
pub(crate) fn root(a: u64) -> (r: u64)
    requires
        0 < a < grid::INF,
    ensures
        r <= grid::INF,
        r == grid::rounded_root(grid::units(a as int) * pow2(1074)),
{
    let (sig, exp) = normalize(a);
    let odd: bool = (exp + 1074) % 2 == 1;
    let p: u128 = if odd { 0x2000_0000_0000_0000 } else { 0x1000_0000_0000_0000 };
    let k: i32 = if odd { 61 } else { 60 };
    let m: u128 = (sig as u128) * p;
    let h: i32 = (exp + 1074 - k) / 2;
    let s: u128 = integer_root(m);
    let ghost n = grid::units(a as int) * pow2(1074);
    proof {
        lemma2_to64_rest();
        assert(2 * h + k == exp + 1074);
        assert(s >= 0x0080_0000_0000_0000) by (nonlinear_arith)
            requires
                m < (s + 1) * (s + 1),
                m >= 0x0010_0000_0000_0000 * 0x1000_0000_0000_0000,
                0 <= s,
        ;
        let u = grid::units(a as int);
        let o = pow2(1074) as int;
        let c = round::scale();
        lemma_pow2_pos(1200);
        let we = round::weight(exp as int);
        round::lemma_weight_adds(exp as int, 1074);
        round::lemma_weight_adds(0, (exp + 1074) as nat);
        assert(round::weight(0) == c);
        let q = pow2((exp + 1074) as nat) as int;
        assert(n * c == (sig * q) * c) by (nonlinear_arith)
            requires
                n == u * o,
                u * c == sig * we,
                we * o == c * q,
        ;
        assert(n == sig * q) by (nonlinear_arith)
            requires
                n * c == (sig * q) * c,
                c > 0,
        ;
        lemma_pow2_adds(k as nat, (2 * h) as nat);
        lemma_pow2_adds(h as nat, h as nat);
        let g = pow2(h as nat) as int;
        assert(n == m * g * g) by (nonlinear_arith)
            requires
                n == sig * q,
                q == p * (g * g),
                m == sig * p,
        ;
    }
    let sticky: bool = s * s != m;
    let r: u64 = round::round(s, h, sticky);
    proof {
        lemma_settles_root(n, m as int, s as int, h as nat, r as int);
    }
    r
}

} // verus!
