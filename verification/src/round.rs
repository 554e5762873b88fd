//! Rounding of an approximation from below to the nearest magnitude.
use crate::grid;
use vstd::arithmetic::div_mod::*;
use vstd::arithmetic::power2::*;
use vstd::prelude::*;

verus! {

/// The scale on which approximations are compared: 2^1200 to the unit.
pub open spec fn scale() -> int {
    pow2(1200) as int
}

/// The size of a bit with exponent `exp`, on that scale.
pub open spec fn weight(exp: int) -> int {
    pow2((exp + 1200) as nat) as int
}

/// `n / d` units are `sig` bits of exponent `exp`, and, where `sticky` is set,
/// a further part of one such bit.
pub open spec fn approximates(n: int, d: int, sig: int, exp: int, sticky: bool) -> bool {
    if sticky {
        sig * weight(exp) * d < n * scale() < (sig + 1) * weight(exp) * d
    } else {
        n * scale() == sig * weight(exp) * d
    }
}

/// What `sig`, `exp` and `sticky` stand for lies at or above the midpoint
/// below magnitude `r`.
pub open spec fn at_least(sig: int, exp: int, sticky: bool, r: int) -> bool {
    let mid = (grid::units(r - 1) + grid::units(r)) * scale();
    let low = 2 * sig * weight(exp);
    mid < low || (mid == low && (sticky || r % 2 == 0))
}

/// What `sig`, `exp` and `sticky` stand for lies below the midpoint below `r`.
pub open spec fn below(sig: int, exp: int, sticky: bool, r: int) -> bool {
    let mid = (grid::units(r - 1) + grid::units(r)) * scale();
    let low = 2 * sig * weight(exp);
    if sticky {
        low + 2 * weight(exp) <= mid
    } else {
        low < mid || (low == mid && r % 2 == 1)
    }
}

/// `r` is the magnitude nearest to whatever `sig`, `exp` and `sticky` stand for.
pub open spec fn settles(sig: int, exp: int, sticky: bool, r: int) -> bool {
    &&& 0 <= r <= grid::INF
    &&& r > 0 ==> at_least(sig, exp, sticky, r)
    &&& r < grid::INF ==> below(sig, exp, sticky, r + 1)
}

/// A ratio that is approximated rounds as the approximation does.
pub proof fn lemma_settles_nearest(n: int, d: int, sig: int, exp: int, sticky: bool, r: int)
    requires
        0 < d,
        approximates(n, d, sig, exp, sticky),
        settles(sig, exp, sticky, r),
    ensures
        grid::nearest(n, d, r),
        r == grid::rounded(n, d),
{
    let k = scale();
    lemma_pow2_pos(1200);
    let a = weight(exp);
    let x = sig * a;
    assert((sig + 1) * a * d == x * d + a * d) by (nonlinear_arith)
        requires
            x == sig * a,
    ;
    if r > 0 {
        let b = grid::units(r - 1) + grid::units(r);
        assert(2 * sig * a == 2 * x) by (nonlinear_arith)
            requires
                x == sig * a,
        ;
        assert(b * k <= 2 * x);
        assert(d * b <= 2 * n && (b * k < 2 * x || x * d < n * k ==> d * b < 2 * n))
            by (nonlinear_arith)
            requires
                0 < d,
                0 < k,
                b * k <= 2 * x,
                x * d <= n * k,
        ;
    }
    if r < grid::INF {
        let b = grid::units(r) + grid::units(r + 1);
        assert(2 * sig * a == 2 * x) by (nonlinear_arith)
            requires
                x == sig * a,
        ;
        if sticky {
            assert(d * b > 2 * n) by (nonlinear_arith)
                requires
                    0 < d,
                    0 < k,
                    2 * x + 2 * a <= b * k,
                    n * k < x * d + a * d,
            ;
        } else {
            assert(d * b >= 2 * n && (2 * x < b * k ==> d * b > 2 * n)) by (nonlinear_arith)
                requires
                    0 < d,
                    0 < k,
                    2 * x <= b * k,
                    n * k == x * d,
            ;
        }
    }
    assert(grid::nearest(n, d, r));
    grid::lemma_rounded(n, d);
}

/// An approximation that reaches a magnitude beyond infinity settles there.
proof fn lemma_settles_capped(sig: int, exp: int, sticky: bool, r: int)
    requires
        0 <= r,
        r > 0 ==> at_least(sig, exp, sticky, r),
        below(sig, exp, sticky, r + 1),
    ensures
        settles(sig, exp, sticky, if r < grid::INF { r } else { grid::INF as int }),
{
    let i = grid::INF as int;
    if r > i {
        grid::lemma_units_increase(i, r);
        grid::lemma_units_increase(i - 1, r - 1);
        let k = scale();
        lemma_pow2_pos(1200);
        let v = grid::units(i - 1) + grid::units(i);
        let w = grid::units(r - 1) + grid::units(r);
        assert(v * k < w * k) by (nonlinear_arith)
            requires
                0 < k,
                v < w,
        ;
    }
}

/// Weights grow by powers of two.
pub(crate) proof fn lemma_weight_adds(exp: int, shift: nat)
    requires
        -1200 <= exp,
    ensures
        weight(exp + shift) == weight(exp) * pow2(shift),
        weight(exp) > 0,
{
    lemma_pow2_adds((exp + 1200) as nat, shift);
    lemma_pow2_pos((exp + 1200) as nat);
}

/// The magnitude made of `q` bits of exponent `t`, on the scale of approximations.
proof fn lemma_units_scaled(q: int, t: nat)
    requires
        0 <= q <= 2 * grid::BINADE,
        t > 0 ==> q >= grid::BINADE,
    ensures
        grid::units(t * grid::BINADE + q) * scale() == q * weight(t as int),
{
    grid::lemma_units_of_multiple(q, t);
    lemma_pow2_adds(t, 1200);
    let p = pow2(t) as int;
    let k = scale();
    assert((q * p) * k == q * (p * k)) by (nonlinear_arith);
}

/// A number on the grid settles at its own magnitude.
proof fn lemma_settles_exact(sig: int, exp: int, q: int, t: nat)
    requires
        0 <= q <= 2 * grid::BINADE,
        t > 0 ==> q >= grid::BINADE,
        sig * weight(exp) == q * weight(t as int),
    ensures
        ({
            let r = t * grid::BINADE + q;
            &&& r > 0 ==> at_least(sig, exp, false, r)
            &&& below(sig, exp, false, r + 1)
        }),
{
    let r = t * grid::BINADE + q;
    let k = scale();
    lemma_pow2_pos(1200);
    lemma_units_scaled(q, t);
    let u = grid::units(r);
    let x = sig * weight(exp);
    assert(2 * sig * weight(exp) == 2 * x) by (nonlinear_arith)
        requires
            x == sig * weight(exp),
    ;
    if r > 0 {
        grid::lemma_units_increase(r - 1, r);
        let v = grid::units(r - 1);
        assert((v + u) * k < 2 * (u * k)) by (nonlinear_arith)
            requires
                0 < k,
                v < u,
        ;
    }
    grid::lemma_units_increase(r, r + 1);
    let w = grid::units(r + 1);
    assert((u + w) * k > 2 * (u * k)) by (nonlinear_arith)
        requires
            0 < k,
            u < w,
    ;
}

/// Cutting `shift` bits off `sig` and rounding by what was cut off.
proof fn lemma_settles_cut(
    sig: int,
    exp: int,
    sticky: bool,
    q: int,
    t: nat,
    shift: nat,
    rem: int,
    half: int,
    up: bool,
)
    requires
        -1200 <= exp,
        exp + shift == t,
        0 <= q < 2 * grid::BINADE,
        t > 0 ==> q >= grid::BINADE,
        pow2(shift) == 2 * half,
        sig == q * (2 * half) + rem,
        0 <= rem < 2 * half,
        up == (rem > half || (rem == half && (sticky || q % 2 == 1))),
    ensures
        ({
            let r = t * grid::BINADE + q + if up { 1int } else { 0int };
            &&& r > 0 ==> at_least(sig, exp, sticky, r)
            &&& below(sig, exp, sticky, r + 1)
        }),
{
    let a = weight(exp);
    let k = scale();
    lemma_pow2_pos(1200);
    lemma_weight_adds(exp, shift);
    lemma_units_scaled(q, t);
    lemma_units_scaled(q + 1, t);
    let p = 2 * half;
    let r0 = t * grid::BINADE + q;
    assert(r0 % 2 == q % 2);
    let u0 = grid::units(r0);
    let u1 = grid::units(r0 + 1);
    assert(weight(t as int) == a * p);
    assert(u0 * k == q * p * a) by (nonlinear_arith)
        requires
            u0 * k == q * (a * p),
    ;
    assert(u1 * k == q * p * a + p * a) by (nonlinear_arith)
        requires
            u1 * k == (q + 1) * (a * p),
    ;
    assert(2 * sig * a == 2 * (q * p * a) + 2 * (rem * a)) by (nonlinear_arith)
        requires
            sig == q * p + rem,
    ;
    let x = q * p * a;
    let ra = rem * a;
    let ha = half * a;
    assert(p * a == 2 * ha) by (nonlinear_arith)
        requires
            p == 2 * half,
            ha == half * a,
    ;
    assert((u0 + u1) * k == u0 * k + u1 * k) by (nonlinear_arith);
    assert(0 <= ra && ra + a <= 2 * ha) by (nonlinear_arith)
        requires
            0 <= rem < 2 * half,
            0 < a,
            ra == rem * a,
            ha == half * a,
    ;
    if up {
        assert(rem > half ==> ra > ha) by (nonlinear_arith)
            requires
                0 < a,
                ra == rem * a,
                ha == half * a,
        ;
        grid::lemma_units_increase(r0 + 1, r0 + 2);
        let u2 = grid::units(r0 + 2);
        assert((u1 + u2) * k > 2 * (u1 * k)) by (nonlinear_arith)
            requires
                0 < k,
                u1 < u2,
        ;
    } else {
        assert(rem < half ==> ra + a <= ha) by (nonlinear_arith)
            requires
                0 < a,
                ra == rem * a,
                ha == half * a,
        ;
        if r0 > 0 {
            grid::lemma_units_increase(r0 - 1, r0);
            let v = grid::units(r0 - 1);
            assert((v + u0) * k < 2 * (u0 * k)) by (nonlinear_arith)
                requires
                    0 < k,
                    v < u0,
            ;
        }
    }
}

/// Less than half a unit settles at zero.
proof fn lemma_settles_zero(sig: int, exp: int, sticky: bool, len: nat)
    requires
        -1200 <= exp,
        0 <= sig < pow2(len),
        exp + len < 0,
    ensures
        below(sig, exp, sticky, 1),
{
    let a = weight(exp);
    lemma_weight_adds(exp, (-exp) as nat);
    lemma_weight_adds(exp, len);
    lemma_pow2_pos(len);
    let l = pow2(len) as int;
    assert(2 * sig * a + 2 * a <= 2 * (a * l)) by (nonlinear_arith)
        requires
            0 < a,
            sig + 1 <= l,
    ;
    lemma_pow2_unfold((exp + len + 1 + 1200) as nat);
    if exp + len + 1 < 0 {
        lemma_pow2_strictly_increases((exp + len + 1 + 1200) as nat, 1200);
    }
    assert(2 * (a * l) <= scale());
    let k = scale();
    grid::lemma_units_small(0);
    grid::lemma_units_small(1);
    assert(1 * k == k) by (nonlinear_arith);
    assert(2 * sig * a + 2 * a <= scale());
    if !sticky {
        assert(2 * sig * a < scale());
    }
}

/// The power of two with exponent `k`.
pub(crate) fn power(k: u32) -> (p: u128)
    requires
        k < 128,
    ensures
        p == pow2(k as nat),
        p > 0,
{
    let top: u128 = 0x8000_0000_0000_0000_0000_0000_0000_0000;
    let down: u128 = (127 - k) as u128;
    proof {
        lemma2_to64();
        lemma2_to64_rest();
        lemma_pow2_adds(64, 63);
        assert(top == pow2(127));
        vstd::bits::lemma_u128_shr_is_div(top, down);
        lemma_pow2_subtracts((127 - k) as nat, 127);
    }
    top >> down
}

/// How many binary digits `x` has.
pub(crate) fn bit_length(x: u128) -> (len: u32)
    requires
        x > 0,
    ensures
        1 <= len <= 128,
        pow2((len - 1) as nat) <= x < pow2(len as nat),
{
    let mut rest: u128 = x;
    let mut gone: u32 = 0;
    let mut k: u32 = 64;
    proof {
        lemma2_to64();
        lemma_pow2_adds(64, 64);
        assert(x as nat / pow2(0) == x);
    }
    while k > 0
        invariant
            k == 64 || k == 32 || k == 16 || k == 8 || k == 4 || k == 2 || k == 1 || k == 0,
            gone + 2 * k <= 128,
            k == 0 ==> gone <= 127,
            x > 0,
            rest == x as nat / pow2(gone as nat),
            rest >= 1,
            rest < if k == 0 { 2 } else { pow2((2 * k) as nat) },
        decreases k,
    {
        let p: u128 = power(k);
        proof {
            lemma_pow2_adds(k as nat, k as nat);
            lemma_pow2_pos(k as nat);
            lemma2_to64();
        }
        if rest >= p {
            proof {
                let pk = pow2(k as nat) as int;
                lemma_pow2_pos(gone as nat);
                vstd::bits::lemma_u128_shr_is_div(rest, k as u128);
                lemma_pow2_adds(gone as nat, k as nat);
                lemma_div_denominator(x as int, pow2(gone as nat) as int, pk);
                lemma_div_is_ordered(pk, rest as int, pk);
                lemma_div_basics(pk);
                lemma_multiply_divide_lt(rest as int, pk, pk);
            }
            rest = rest >> (k as u128);
            gone = gone + k;
        }
        k = k / 2;
    }
    proof {
        let p = pow2(gone as nat) as int;
        lemma_pow2_pos(gone as nat);
        lemma_pow2_unfold((gone + 1) as nat);
        lemma_fundamental_div_mod(x as int, p);
        lemma_mod_bound(x as int, p);
        assert(rest == 1);
        assert(p * 1 == p);
    }
    gone + 1
}

/// Rounds `sig` bits of exponent `exp`, and, where `sticky` is set, a further
/// part of one such bit, to the nearest magnitude.
pub(crate) fn round(sig: u128, exp: i32, sticky: bool) -> (r: u64)
    requires
        0 < sig < 0x8000_0000_0000_0000_0000_0000_0000_0000,
        -1200 <= exp <= 3200,
        sticky ==> sig >= 0x0080_0000_0000_0000,
    ensures
        settles(sig as int, exp as int, sticky, r as int),
{
    let bits: u32 = bit_length(sig);
    let len: i32 = bits as i32;
    proof {
        lemma2_to64();
        lemma2_to64_rest();
        lemma_pow2_adds(64, 63);
        if len == 128 {
            assert(false);
        }
        if sticky && len <= 55 {
            if len < 55 {
                lemma_pow2_strictly_increases(len as nat, 55);
            }
            assert(false);
        }
    }
    let t: i32 = if len + exp > 53 { len + exp - 53 } else { 0 };
    let base: u64 = (t as u64) * grid::BINADE;
    let whole: u64 = if t <= exp {
        let grow: u32 = (exp - t) as u32;
        let p: u128 = power(grow);
        proof {
            lemma_pow2_adds(len as nat, grow as nat);
            lemma_pow2_adds((len - 1) as nat, grow as nat);
            let l = pow2(len as nat) as int;
            let h = pow2((len - 1) as nat) as int;
            assert(h * p <= sig * p && sig * p < l * p) by (nonlinear_arith)
                requires
                    h <= sig < l,
                    0 < p,
            ;
            if len + grow < 53 {
                lemma_pow2_strictly_increases((len + grow) as nat, 53);
            }
            lemma_weight_adds(t as int, grow as nat);
            let w = weight(t as int);
            assert(sig * (w * p) == (sig * p) * w) by (nonlinear_arith);
            lemma_settles_exact(sig as int, exp as int, sig * p, t as nat);
        }
        base + (sig * p) as u64
    } else if t - exp > len {
        proof {
            lemma_settles_zero(sig as int, exp as int, sticky, len as nat);
        }
        0
    } else {
        let shift: u32 = (t - exp) as u32;
        let p: u128 = power(shift);
        let half: u128 = power(shift - 1);
        proof {
            vstd::bits::lemma_u128_shr_is_div(sig, shift as u128);
            lemma_fundamental_div_mod(sig as int, p as int);
            lemma_mod_bound(sig as int, p as int);
            lemma_pow2_unfold(shift as nat);
        }
        let q: u128 = sig >> (shift as u128);
        proof {
            assert(p * q == q * p) by (nonlinear_arith);
            lemma_pow2_adds(shift as nat, (len - shift) as nat);
            let c = pow2((len - shift) as nat) as int;
            lemma_pow2_pos((len - shift) as nat);
            assert(q < c) by (nonlinear_arith)
                requires
                    q * p <= sig,
                    sig < p * c,
                    0 < p,
            ;
            if len - shift < 53 {
                lemma_pow2_strictly_increases((len - shift) as nat, 53);
            }
            if t > 0 {
                lemma_pow2_adds(shift as nat, 52);
                let b = pow2(52) as int;
                assert(q >= b) by (nonlinear_arith)
                    requires
                        sig < q * p + p,
                        sig >= p * b,
                        0 < p,
                ;
            }
        }
        let rem: u128 = sig - q * p;
        let up: bool = rem > half || (rem == half && (sticky || q % 2 == 1));
        proof {
            lemma_settles_cut(
                sig as int,
                exp as int,
                sticky,
                q as int,
                t as nat,
                shift as nat,
                rem as int,
                half as int,
                up,
            );
        }
        if up {
            base + q as u64 + 1
        } else {
            base + q as u64
        }
    };
    proof {
        lemma_settles_capped(sig as int, exp as int, sticky, whole as int);
    }
    if whole < grid::INF {
        whole
    } else {
        grid::INF
    }
}

} // verus!
