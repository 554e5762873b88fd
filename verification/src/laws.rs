//! Laws of binary64 arithmetic that follow from how its operations are stated.
use crate::binary64;
use crate::binary64::Binary64;
use crate::grid;
use vstd::arithmetic::power2::*;
use vstd::prelude::*;

verus! {

/// Ranks order finite numbers as their values do.
pub proof fn lemma_rank_orders_values(a: Binary64, b: Binary64)
    requires
        a.finite(),
        b.finite(),
    ensures
        a.rank() < b.rank() <==> a.value() < b.value(),
        a.rank() == b.rank() <==> a.value() == b.value(),
{
    let (x, y) = (a.magnitude(), b.magnitude());
    grid::lemma_units_small(0);
    if x > 0 {
        grid::lemma_units_increase(0, x);
    }
    if y > 0 {
        grid::lemma_units_increase(0, y);
    }
    if x < y {
        grid::lemma_units_increase(x, y);
    } else if y < x {
        grid::lemma_units_increase(y, x);
    }
}

/// The order of addends makes no difference.
pub proof fn lemma_add_commutes(a: Binary64, b: Binary64)
    ensures
        a.add(b) == b.add(a),
{
}

/// The rank of an exact value, rounded.
pub open spec fn rounded_rank(s: int) -> int {
    if s < 0 {
        -grid::rounded(-s, 1)
    } else {
        grid::rounded(s, 1)
    }
}

/// A finite sum is its exact value, rounded.
pub proof fn lemma_add_rounds(a: Binary64, b: Binary64)
    requires
        a.finite(),
        b.finite(),
    ensures
        !a.add(b).nan(),
        a.add(b).rank() == rounded_rank(a.value() + b.value()),
{
    let s = a.value() + b.value();
    grid::lemma_rounded(if s < 0 { -s } else { s }, 1);
    grid::lemma_units_small(0);
    if s == 0 {
        grid::lemma_rounded_exact(0, 1);
    } else {
        Binary64::lemma_pack(s < 0, grid::rounded(vstd::math::abs(s) as int, 1));
    }
}

proof fn lemma_rounded_rank_monotone(s: int, t: int)
    requires
        s <= t,
    ensures
        rounded_rank(s) <= rounded_rank(t),
{
    grid::lemma_rounded(s, 1);
    grid::lemma_rounded(t, 1);
    grid::lemma_rounded(-s, 1);
    grid::lemma_rounded(-t, 1);
    if s >= 0 {
        grid::lemma_rounded_monotone(s, 1, t, 1);
    } else if t < 0 {
        grid::lemma_rounded_monotone(-t, 1, -s, 1);
    }
}

/// Adding a larger number never gives less.
pub proof fn lemma_add_monotone(x: Binary64, a: Binary64, b: Binary64)
    requires
        a.rank() <= b.rank(),
        !x.add(a).nan(),
        !x.add(b).nan(),
        !a.nan(),
        !b.nan(),
        !x.nan(),
    ensures
        x.add(a).rank() <= x.add(b).rank(),
{
    if x.finite() && a.finite() && b.finite() {
        lemma_add_rounds(x, a);
        lemma_add_rounds(x, b);
        lemma_rank_orders_values(a, b);
        lemma_rounded_rank_monotone(x.value() + a.value(), x.value() + b.value());
    } else if x.finite() {
        if a.finite() {
            lemma_add_rounds(x, a);
            lemma_rounded_rank_bound(x.value() + a.value());
        }
        if b.finite() {
            lemma_add_rounds(x, b);
            lemma_rounded_rank_bound(x.value() + b.value());
        }
    }
}

proof fn lemma_rounded_rank_bound(s: int)
    ensures
        -grid::INF <= rounded_rank(s) <= grid::INF,
{
    grid::lemma_rounded(s, 1);
    grid::lemma_rounded(-s, 1);
}

/// Adding zero changes nothing that a comparison sees.
pub proof fn lemma_add_zero(x: Binary64, z: Binary64)
    requires
        !x.nan(),
        z.zero(),
    ensures
        !x.add(z).nan(),
        x.add(z).rank() == x.rank(),
{
    grid::lemma_units_small(0);
    if x.finite() {
        lemma_add_rounds(x, z);
        let m = x.magnitude();
        if m > 0 {
            grid::lemma_units_increase(0, m);
        }
        grid::lemma_rounded_exact(m, 1);
        assert(x.value() + z.value() == x.value());
    }
}

/// Multiplying by one changes nothing, and by minus one the sign only.
pub proof fn lemma_mul_one(y: Binary64)
    requires
        !y.nan(),
    ensures
        Binary64::from_u64(1).mul(y) == y,
        Binary64::from_u64(1).neg().mul(y) == y.neg(),
{
    let one = Binary64::from_u64(1);
    let o = binary64::one();
    lemma_pow2_pos(1074);
    Binary64::lemma_from_u64_exact(1);
    assert(1 * o == o);
    grid::lemma_units_small(0);
    Binary64::lemma_pack(true, one.magnitude());
    if y.finite() {
        grid::lemma_rounded_exact(y.magnitude(), o);
    }
}

/// A quotient changes sign with its dividend.
pub proof fn lemma_div_neg(x: Binary64, y: Binary64)
    requires
        !x.div(y).nan(),
    ensures
        x.neg().div(y) == x.div(y).neg(),
{
    Binary64::lemma_pack(!x.negative(), x.magnitude());
    if x.finite() && y.finite() && !y.zero() {
        grid::lemma_units_small(0);
        grid::lemma_units_increase(0, y.magnitude());
        grid::lemma_rounded(
            grid::units(x.magnitude()) * binary64::one(),
            grid::units(y.magnitude()),
        );
        Binary64::lemma_pack(
            x.negative() != y.negative(),
            grid::rounded(
                grid::units(x.magnitude()) * binary64::one(),
                grid::units(y.magnitude()),
            ),
        );
    }
}

/// Multiplying a larger number by a positive, finite one never gives less.
pub proof fn lemma_mul_monotone(a: Binary64, b: Binary64, y: Binary64)
    requires
        !a.nan(),
        !b.nan(),
        a.rank() <= b.rank(),
        y.finite(),
        !y.negative(),
        !y.zero(),
    ensures
        !a.mul(y).nan(),
        !b.mul(y).nan(),
        a.mul(y).rank() <= b.mul(y).rank(),
{
    let (m, n) = (a.magnitude(), b.magnitude());
    let (u, v, w) = (grid::units(m), grid::units(n), grid::units(y.magnitude()));
    let o = binary64::one();
    lemma_pow2_pos(1074);
    grid::lemma_units_small(0);
    grid::lemma_units_increase(0, y.magnitude());
    grid::lemma_rounded(u * w, o);
    grid::lemma_rounded(v * w, o);
    Binary64::lemma_pack(a.negative(), grid::INF as int);
    Binary64::lemma_pack(b.negative(), grid::INF as int);
    Binary64::lemma_pack(a.negative(), grid::rounded(u * w, o));
    Binary64::lemma_pack(b.negative(), grid::rounded(v * w, o));
    if m == 0 {
        grid::lemma_rounded_exact(0, o);
        assert(0 * w == 0 && o * 0 == 0) by (nonlinear_arith);
    }
    if n == 0 {
        grid::lemma_rounded_exact(0, o);
        assert(0 * w == 0 && o * 0 == 0) by (nonlinear_arith);
    }
    if m < n {
        grid::lemma_units_increase(m, n);
    } else if n < m {
        grid::lemma_units_increase(n, m);
    }
    if u <= v {
        assert(u * w * o <= v * w * o) by (nonlinear_arith)
            requires
                u <= v,
                0 < w,
                0 < o,
        ;
        grid::lemma_rounded_monotone(u * w, o, v * w, o);
    } else {
        assert(v * w * o <= u * w * o) by (nonlinear_arith)
            requires
                v <= u,
                0 < w,
                0 < o,
        ;
        grid::lemma_rounded_monotone(v * w, o, u * w, o);
    }
}

/// The order of factors makes no difference.
pub proof fn lemma_mul_commutes(a: Binary64, b: Binary64)
    ensures
        a.mul(b) == b.mul(a),
{
    let (x, y) = (grid::units(a.magnitude()), grid::units(b.magnitude()));
    assert(x * y == y * x) by (nonlinear_arith);
}

/// Multiplying a larger number by one without a minus sign never gives less,
/// where both products are numbers.
pub proof fn lemma_scaled_monotone(y: Binary64, a: Binary64, b: Binary64)
    requires
        a.rank() <= b.rank(),
        !y.negative(),
        !y.mul(a).nan(),
        !y.mul(b).nan(),
    ensures
        y.mul(a).rank() <= y.mul(b).rank(),
{
    let o = binary64::one();
    assert(!y.nan() && !a.nan() && !b.nan());
    lemma_mul_commutes(a, y);
    lemma_mul_commutes(b, y);
    if y.infinite() {
        Binary64::lemma_pack(a.negative(), grid::INF as int);
        Binary64::lemma_pack(b.negative(), grid::INF as int);
    } else if y.zero() {
        let (u, v) = (grid::units(a.magnitude()), grid::units(b.magnitude()));
        lemma_pow2_pos(1074);
        grid::lemma_units_small(0);
        grid::lemma_rounded_exact(0, o);
        assert(0 * u == 0 && 0 * v == 0 && o * 0 == 0) by (nonlinear_arith);
        Binary64::lemma_pack(a.negative(), 0);
        Binary64::lemma_pack(b.negative(), 0);
    } else {
        lemma_mul_monotone(a, b, y);
    }
}

/// Dividing a larger number by one without a minus sign never gives less, where
/// both quotients are numbers.
pub proof fn lemma_div_monotone(a: Binary64, b: Binary64, y: Binary64)
    requires
        a.rank() <= b.rank(),
        !y.negative(),
        !a.div(y).nan(),
        !b.div(y).nan(),
    ensures
        a.div(y).rank() <= b.div(y).rank(),
{
    assert(!y.nan() && !a.nan() && !b.nan());
    Binary64::lemma_pack(a.negative(), grid::INF as int);
    Binary64::lemma_pack(b.negative(), grid::INF as int);
    Binary64::lemma_pack(a.negative(), 0);
    Binary64::lemma_pack(b.negative(), 0);
    if y.finite() && !y.zero() {
        let (m, n) = (a.magnitude(), b.magnitude());
        let o = binary64::one();
        let (u, v, w) = (grid::units(m) * o, grid::units(n) * o, grid::units(y.magnitude()));
        lemma_pow2_pos(1074);
        grid::lemma_units_small(0);
        grid::lemma_units_increase(0, y.magnitude());
        grid::lemma_rounded(u, w);
        grid::lemma_rounded(v, w);
        Binary64::lemma_pack(a.negative(), grid::rounded(u, w));
        Binary64::lemma_pack(b.negative(), grid::rounded(v, w));
        grid::lemma_rounded_exact(0, w);
        assert(0 * o == 0 && w * 0 == 0) by (nonlinear_arith);
        if m < n {
            grid::lemma_units_increase(m, n);
        } else if n < m {
            grid::lemma_units_increase(n, m);
        }
        let (x, z) = (grid::units(m), grid::units(n));
        if x <= z {
            assert((x * o) * w <= (z * o) * w) by (nonlinear_arith)
                requires
                    x <= z,
                    0 < o,
                    0 < w,
            ;
            grid::lemma_rounded_monotone(u, w, v, w);
        } else {
            assert((z * o) * w <= (x * o) * w) by (nonlinear_arith)
                requires
                    z <= x,
                    0 < o,
                    0 < w,
            ;
            grid::lemma_rounded_monotone(v, w, u, w);
        }
    }
}

/// A larger number is never rounded up to a smaller whole one.
pub proof fn lemma_ceil_monotone(a: Binary64, b: Binary64)
    requires
        !a.nan(),
        !b.nan(),
        a.rank() <= b.rank(),
    ensures
        a.ceil_to_usize() <= b.ceil_to_usize(),
{
    let (m, n) = (a.magnitude(), b.magnitude());
    let o = binary64::one();
    lemma_pow2_pos(1074);
    grid::lemma_units_small(0);
    if m > 0 {
        grid::lemma_units_increase(0, m);
    }
    if n > 0 {
        grid::lemma_units_increase(0, n);
    }
    if m < n {
        grid::lemma_units_increase(m, n);
    }
    let (x, y) = (grid::units(m) + o - 1, grid::units(n) + o - 1);
    vstd::arithmetic::div_mod::lemma_basic_div(o - 1, o);
    vstd::arithmetic::div_mod::lemma_div_pos_is_pos(x, o);
    vstd::arithmetic::div_mod::lemma_div_pos_is_pos(y, o);
    if !a.negative() && !b.negative() && a.finite() && b.finite() {
        vstd::arithmetic::div_mod::lemma_div_is_ordered(x, y, o);
    }
}

/// Sums, products, quotients and roots of numbers without a minus sign have none.
pub proof fn lemma_signs(a: Binary64, b: Binary64)
    requires
        !a.negative(),
        !b.negative(),
    ensures
        !a.add(b).negative(),
        !a.mul(b).negative(),
        !a.div(b).negative(),
        !a.sqrt().negative(),
{
    let (x, y) = (grid::units(a.magnitude()), grid::units(b.magnitude()));
    let o = binary64::one();
    lemma_pow2_pos(1074);
    grid::lemma_units_small(0);
    if a.magnitude() > 0 {
        grid::lemma_units_increase(0, a.magnitude());
    }
    if b.magnitude() > 0 {
        grid::lemma_units_increase(0, b.magnitude());
        grid::lemma_rounded(x * o, y);
        Binary64::lemma_pack(false, grid::rounded(x * o, y));
    }
    grid::lemma_rounded(x + y, 1);
    Binary64::lemma_pack(false, grid::rounded(x + y, 1));
    grid::lemma_rounded(x * y, o);
    Binary64::lemma_pack(false, grid::rounded(x * y, o));
    if a.finite() && !a.zero() {
        lemma_root_exists(x * o);
        Binary64::lemma_pack(false, grid::rounded_root(x * o));
    }
}

proof fn lemma_root_below(n: int, r: int)
    requires
        0 <= r <= grid::INF,
        r < grid::INF ==> !grid::root_reaches(n, r + 1),
    ensures
        exists|c: int| grid::nearest_root(n, c),
    decreases r,
{
    if r == 0 || grid::root_reaches(n, r) {
        assert(grid::nearest_root(n, r));
    } else {
        lemma_root_below(n, r - 1);
    }
}

/// Every square root has a nearest magnitude.
pub proof fn lemma_root_exists(n: int)
    ensures
        grid::nearest_root(n, grid::rounded_root(n)),
{
    lemma_root_below(n, grid::INF as int);
}

/// Comparing finite numbers compares their values.
pub proof fn lemma_lt_compares_values(a: Binary64, b: Binary64)
    requires
        a.finite(),
        b.finite(),
    ensures
        a.lt(b) <==> a.value() < b.value(),
{
    lemma_rank_orders_values(a, b);
}

/// The other sign makes the other value, and none its size.
pub proof fn lemma_sign_of_value(a: Binary64)
    ensures
        a.neg().value() == -a.value(),
        a.neg().neg() == a,
        a.abs().value() == vstd::math::abs(a.value()),
        a.neg().finite() == a.finite(),
        a.abs().finite() == a.finite(),
{
    Binary64::lemma_pack(!a.negative(), a.magnitude());
    Binary64::lemma_pack(false, a.magnitude());
    grid::lemma_units_small(0);
    if a.magnitude() > 0 {
        grid::lemma_units_increase(0, a.magnitude());
    }
}

/// A sum is the number nearest to the exact one: no other is nearer.
pub proof fn lemma_add_nearest(a: Binary64, b: Binary64, other: Binary64)
    requires
        a.finite(),
        b.finite(),
        a.add(b).finite(),
        other.finite(),
    ensures
        vstd::math::abs(a.add(b).value() - (a.value() + b.value())) <= vstd::math::abs(
            other.value() - (a.value() + b.value()),
        ),
{
    let s = a.value() + b.value();
    let n = vstd::math::abs(s) as int;
    grid::lemma_units_small(0);
    if s != 0 {
        grid::lemma_rounded(n, 1);
        Binary64::lemma_pack(s < 0, grid::rounded(n, 1));
        grid::lemma_rounded_closest(n, 1, other.magnitude());
        if other.magnitude() > 0 {
            grid::lemma_units_increase(0, other.magnitude());
        }
        grid::lemma_rounded_closest(n, 1, 0);
    } else {
        Binary64::lemma_pack(a.negative() && b.negative(), 0);
    }
}

/// A product is the number nearest to the exact one: no other is nearer.
pub proof fn lemma_mul_nearest(a: Binary64, b: Binary64, other: Binary64)
    requires
        a.finite(),
        b.finite(),
        a.mul(b).finite(),
        other.finite(),
    ensures
        vstd::math::abs(binary64::one() * a.mul(b).value() - a.value() * b.value())
            <= vstd::math::abs(binary64::one() * other.value() - a.value() * b.value()),
{
    let o = binary64::one();
    let (u, v) = (grid::units(a.magnitude()), grid::units(b.magnitude()));
    let n = u * v;
    lemma_pow2_pos(1074);
    grid::lemma_units_small(0);
    if a.magnitude() > 0 {
        grid::lemma_units_increase(0, a.magnitude());
    }
    if b.magnitude() > 0 {
        grid::lemma_units_increase(0, b.magnitude());
    }
    assert(0 <= n && (-u) * v == -n && u * (-v) == -n && (-u) * (-v) == n) by (nonlinear_arith)
        requires
            n == u * v,
            0 <= u,
            0 <= v,
    ;
    lemma_nearest_signed(a.negative() != b.negative(), n, o, other);
}

proof fn lemma_nearest_signed(negative: bool, n: int, d: int, other: Binary64)
    requires
        0 <= n,
        0 < d,
        Binary64::pack(negative, grid::rounded(n, d)).finite(),
        other.finite(),
    ensures
        ({
            let s = if negative {
                -n
            } else {
                n
            };
            let x = Binary64::pack(negative, grid::rounded(n, d)).value();
            vstd::math::abs(d * x - s) <= vstd::math::abs(d * other.value() - s)
        }),
{
    grid::lemma_rounded(n, d);
    let r = grid::rounded(n, d);
    Binary64::lemma_pack(negative, r);
    grid::lemma_units_small(0);
    let (w, z) = (grid::units(r), grid::units(other.magnitude()));
    if other.magnitude() > 0 {
        grid::lemma_units_increase(0, other.magnitude());
    }
    grid::lemma_rounded_closest(n, d, other.magnitude());
    grid::lemma_rounded_closest(n, d, 0);
    assert(d * (-w) == -(d * w) && d * (-z) == -(d * z) && d * 0 == 0 && 0 <= d * z)
        by (nonlinear_arith)
        requires
            0 < d,
            0 <= z,
    ;
}

/// A quotient is the number nearest to the exact one: multiplied back, no other comes
/// nearer to the dividend.
pub proof fn lemma_div_nearest(a: Binary64, b: Binary64, other: Binary64)
    requires
        a.finite(),
        b.finite(),
        !b.zero(),
        a.div(b).finite(),
        other.finite(),
    ensures
        vstd::math::abs(b.value() * a.div(b).value() - binary64::one() * a.value())
            <= vstd::math::abs(b.value() * other.value() - binary64::one() * a.value()),
{
    let o = binary64::one();
    let (u, v) = (grid::units(a.magnitude()), grid::units(b.magnitude()));
    let n = u * o;
    lemma_pow2_pos(1074);
    grid::lemma_units_small(0);
    if a.magnitude() > 0 {
        grid::lemma_units_increase(0, a.magnitude());
    }
    grid::lemma_units_increase(0, b.magnitude());
    assert(0 <= n && o * u == n && o * (-u) == -n) by (nonlinear_arith)
        requires
            n == u * o,
            0 <= u,
            0 < o,
    ;
    let negative = a.negative() != b.negative();
    lemma_nearest_signed(negative, n, v, other);
    let (x, y) = (a.div(b).value(), other.value());
    assert((-v) * x == -(v * x) && (-v) * y == -(v * y)) by (nonlinear_arith);
}

/// Rounding up gives the least whole number that is no less, where it is in range.
pub proof fn lemma_ceil(x: Binary64)
    requires
        x.finite(),
        0 <= x.value() <= usize::MAX * binary64::one(),
    ensures
        x.value() <= x.ceil_to_usize() * binary64::one() < x.value() + binary64::one(),
{
    let o = binary64::one();
    let v = x.value();
    lemma_pow2_pos(1074);
    grid::lemma_units_small(0);
    if x.magnitude() > 0 {
        grid::lemma_units_increase(0, x.magnitude());
    }
    let q = (v + o - 1) / o;
    vstd::arithmetic::div_mod::lemma_fundamental_div_mod(v + o - 1, o);
    vstd::arithmetic::div_mod::lemma_mod_bound(v + o - 1, o);
    assert(o * q == q * o) by (nonlinear_arith);
    assert(0 <= q <= usize::MAX) by (nonlinear_arith)
        requires
            v <= q * o,
            q * o < v + o,
            0 <= v <= usize::MAX * o,
            0 < o,
    ;
    if x.negative() {
        assert(v == 0);
        assert(0 * o == 0);
    }
}

/// Rounding to a whole number gives the nearest one, the larger of two, where it is in
/// range.
pub proof fn lemma_round(x: Binary64)
    requires
        x.finite(),
        0 <= x.value() <= usize::MAX * binary64::one(),
    ensures
        2 * (x.round_to_usize() * binary64::one()) > 2 * x.value() - binary64::one(),
        2 * (x.round_to_usize() * binary64::one()) <= 2 * x.value() + binary64::one(),
{
    let o = binary64::one();
    let v = x.value();
    lemma_pow2_pos(1074);
    grid::lemma_units_small(0);
    if x.magnitude() > 0 {
        grid::lemma_units_increase(0, x.magnitude());
    }
    let q = (2 * v + o) / (2 * o);
    vstd::arithmetic::div_mod::lemma_fundamental_div_mod(2 * v + o, 2 * o);
    vstd::arithmetic::div_mod::lemma_mod_bound(2 * v + o, 2 * o);
    assert((2 * o) * q == 2 * (q * o)) by (nonlinear_arith);
    assert(0 <= q <= usize::MAX) by (nonlinear_arith)
        requires
            2 * (q * o) <= 2 * v + o,
            2 * v + o < 2 * (q * o) + 2 * o,
            0 <= v <= usize::MAX * o,
            0 < o,
    ;
    if x.negative() {
        assert(v == 0);
        assert(0 * o == 0);
    }
}

} // verus!
