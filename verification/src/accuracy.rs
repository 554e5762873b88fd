//! How close the mean and the standard deviation come to the exact ones, in
//! whatever order the numbers are added up.
use crate::binary64;
use crate::binary64::Binary64;
use crate::grid;
use crate::laws;
use crate::precision;
use crate::scale;
use crate::shuffle;
use crate::sort;
use crate::stats;
use crate::sums;
use vstd::arithmetic::power2::*;
use vstd::math::abs;
use vstd::prelude::*;

verus! {

/// The exact sum of the squared members, in units of 2^-2148.
pub open spec fn exact_squares(s: Seq<Binary64>) -> int
    decreases s.len(),
{
    if s.len() == 0 {
        0
    } else {
        exact_squares(s.drop_last()) + s.last().value() * s.last().value()
    }
}

/// The exact sum of the squared distances from `center`.
pub open spec fn exact_deviations(s: Seq<Binary64>, center: int) -> int
    decreases s.len(),
{
    if s.len() == 0 {
        0
    } else {
        let away = s.last().value() - center;
        exact_deviations(s.drop_last(), center) + away * away
    }
}

/// The exact variance, times the squared number of members.
pub open spec fn exact_variance(s: Seq<Binary64>) -> int {
    s.len() * exact_squares(s) - sums::exact_total(s) * sums::exact_total(s)
}

/// How far the mean is off, times the number of members.
pub open spec fn mean_error(s: Seq<Binary64>) -> int {
    s.len() * stats::mean(s).value() - sums::exact_total(s)
}

/// A mean of n numbers is off by n + 2 in 2^52 of their mean size, and one unit,
/// at most.
pub proof fn lemma_mean_accuracy(s: Seq<Binary64>)
    requires
        0 < s.len() <= grid::BINADE / 4,
        stats::mean(s).finite(),
    ensures
        grid::BINADE * abs(mean_error(s)) <= (s.len() + 2) * sums::exact_size(s) + grid::BINADE
            * s.len(),
{
    let n = s.len() as int;
    let b = grid::BINADE as int;
    sums::lemma_mean_error(s);
    sums::lemma_total_error(s);
    sums::lemma_size_bounds_total(s);
    let (t, x, size) = (stats::total(s).value(), sums::exact_total(s), sums::exact_size(s));
    let e = abs(t - x) as int;
    let f = abs(n * stats::mean(s).value() - t) as int;
    assert(n * size <= b * size) by (nonlinear_arith)
        requires
            n <= b,
            size >= 0,
    ;
    assert(b * e <= b * size);
    assert(e <= size);
    assert(abs(t) <= 2 * size);
    assert(b * f <= 2 * size + b * n);
    assert((n + 2) * size == n * size + 2 * size) by (nonlinear_arith);
}

/// The distances from any center, by the exact variance and how far the center
/// is off.
proof fn lemma_deviations(s: Seq<Binary64>, center: int)
    ensures
        exact_deviations(s, center) == exact_squares(s) - 2 * (center * sums::exact_total(s))
            + s.len() * (center * center),
    decreases s.len(),
{
    if s.len() > 0 {
        let rest = s.drop_last();
        lemma_deviations(rest, center);
        let (x, n, c) = (s.last().value(), s.len() as int, center * center);
        assert((x - center) * (x - center) == x * x - 2 * (center * x) + c) by (nonlinear_arith)
            requires
                c == center * center,
        ;
        let t = sums::exact_total(rest);
        assert(center * (t + x) == center * t + center * x) by (nonlinear_arith);
        assert(n * c == (n - 1) * c + c) by (nonlinear_arith);
    } else {
        assert(center * 0 == 0 && 0 * (center * center) == 0);
    }
}

proof fn lemma_deviations_around_mean(s: Seq<Binary64>)
    ensures
        s.len() * exact_deviations(s, stats::mean(s).value()) == exact_variance(s) + mean_error(s)
            * mean_error(s),
{
    let (n, m, t) = (s.len() as int, stats::mean(s).value(), sums::exact_total(s));
    let q = exact_squares(s);
    lemma_deviations(s, m);
    let (mt, mm, nm) = (m * t, m * m, n * m);
    assert(n * (q - 2 * mt + n * mm) == n * q - 2 * (n * mt) + n * (n * mm)) by (nonlinear_arith);
    assert(n * mt == nm * t && n * (n * mm) == nm * nm) by (nonlinear_arith)
        requires
            mt == m * t,
            mm == m * m,
            nm == n * m,
    ;
    assert((nm - t) * (nm - t) == nm * nm - 2 * (nm * t) + t * t) by (nonlinear_arith);
}

/// One squared distance, rounded, against the exact one.
proof fn lemma_square_error(p: Binary64, m: Binary64)
    requires
        p.sub(m).mul(p.sub(m)).finite(),
    ensures
        p.finite(),
        m.finite(),
        !p.sub(m).mul(p.sub(m)).negative(),
        ({
            let away = p.value() - m.value();
            precision::SHARE * abs(
                binary64::one() * p.sub(m).mul(p.sub(m)).value() - away * away,
            ) <= 5 * (away * away) + grid::BINADE * binary64::one()
        }),
{
    let x = p.sub(m);
    let o = binary64::one();
    let h = precision::SHARE as int;
    lemma_pow2_pos(1074);
    Binary64::lemma_pack(!m.negative(), m.magnitude());
    scale::lemma_finite_factors(x, x);
    sums::lemma_finite_addends(p, m.neg());
    precision::lemma_sub_error(p, m);
    precision::lemma_mul_error(x, x);
    let u = grid::units(x.magnitude());
    grid::lemma_rounded(u * u, o);
    Binary64::lemma_pack(false, grid::rounded(u * u, o));
    let (v, r) = (x.value(), p.value() - m.value());
    lemma_square_moves(h, v, r);
    let (vv, rr) = (v * v, r * r);
    assert(vv >= 0 && rr >= 0) by (nonlinear_arith)
        requires
            vv == v * v,
            rr == r * r,
    ;
    assert(vv <= 2 * rr);
}

proof fn lemma_square_moves(h: int, v: int, r: int)
    requires
        h >= 3,
        h * abs(v - r) <= abs(r),
    ensures
        h * abs(v * v - r * r) <= 3 * (r * r),
{
    let e = v - r;
    let (a, s) = (abs(e) as int, abs(r) as int);
    assert(v * v - r * r == e * (2 * r + e)) by (nonlinear_arith)
        requires
            e == v - r,
    ;
    let f = 2 * r + e;
    assert(3 * a <= s) by (nonlinear_arith)
        requires
            h * a <= s,
            h >= 3,
            a >= 0,
    ;
    assert(abs(f) <= 3 * s);
    let g = abs(f) as int;
    assert(abs(e * f) == a * g) by (nonlinear_arith)
        requires
            a == (if e < 0 { -e } else { e }),
            g == (if f < 0 { -f } else { f }),
    ;
    assert(h * (a * g) <= s * (3 * s)) by (nonlinear_arith)
        requires
            h * a <= s,
            0 <= g <= 3 * s,
            0 <= a,
            0 <= s,
    ;
    assert(s * (3 * s) == 3 * (r * r)) by (nonlinear_arith)
        requires
            s == (if r < 0 { -r } else { r }),
    ;
}

/// The squared distances, rounded and added up exactly.
proof fn lemma_squares_error(s: Seq<Binary64>, m: Binary64)
    requires
        forall|i: int|
            0 <= i < s.len() ==> (#[trigger] stats::squared_deviations(s, m)[i]).finite(),
    ensures
        ({
            let exact = exact_deviations(s, m.value());
            let q = sums::exact_total(stats::squared_deviations(s, m));
            &&& 0 <= exact
            &&& precision::SHARE * abs(binary64::one() * q - exact) <= 5 * exact + grid::BINADE * (
            s.len() * binary64::one())
        }),
        forall|i: int|
            0 <= i < s.len() ==> !(#[trigger] stats::squared_deviations(s, m)[i]).negative(),
    decreases s.len(),
{
    let qs = stats::squared_deviations(s, m);
    let o = binary64::one();
    if s.len() == 0 {
        assert(0 * o == 0 && o * 0 == 0);
    } else {
        let (rest, x) = (s.drop_last(), s.last());
        let before = stats::squared_deviations(rest, m);
        assert(qs.drop_last() =~= before);
        assert forall|i: int| 0 <= i < rest.len() implies (#[trigger] before[i]).finite() by {
            assert(qs[i].finite());
        }
        lemma_squares_error(rest, m);
        assert(qs[s.len() - 1].finite());
        lemma_square_error(x, m);
        assert forall|i: int| 0 <= i < s.len() implies !(#[trigger] qs[i]).negative() by {
            if i < rest.len() {
                assert(!before[i].negative());
            }
        }
        let n = s.len() as int;
        let (t, v) = (sums::exact_total(before), qs.last().value());
        let away = x.value() - m.value();
        assert(away * away >= 0) by (nonlinear_arith);
        assert(o * (t + v) == o * t + o * v) by (nonlinear_arith);
        assert(n * o == (n - 1) * o + o) by (nonlinear_arith);
    }
}

/// A square root, squared again, is off by four in 2^52 at most.
pub proof fn lemma_root_error(x: Binary64)
    requires
        x.finite(),
        0 <= x.value(),
        x.sqrt().finite(),
    ensures
        ({
            let (u, n) = (x.sqrt().value(), binary64::one() * x.value());
            grid::BINADE * abs(u * u - n) <= 4 * n
        }),
{
    let o = binary64::one();
    let b = grid::BINADE as int;
    lemma_pow2_pos(1074);
    grid::lemma_units_small(0);
    let v = grid::units(x.magnitude());
    precision::lemma_units_natural(x.magnitude());
    if x.zero() {
        assert(0 * 0 == 0 && o * 0 == 0);
    } else {
        let n = v * o;
        assert(n == o * v) by (nonlinear_arith)
            requires
                n == v * o,
        ;
        laws::lemma_root_exists(n);
        let r = grid::rounded_root(n);
        Binary64::lemma_pack(false, r);
        assert(b * b < o) by {
            lemma2_to64_rest();
            lemma_pow2_adds(52, 52);
            lemma_pow2_strictly_increases(104, 1074);
            assert(b * b == pow2(104));
        }
        assert(n >= o) by (nonlinear_arith)
            requires
                n == v * o,
                v >= 1,
                o >= 1,
        ;
        grid::lemma_units_step(r);
        let (u, g) = (grid::units(r), grid::gap(r));
        let above = u + (u + g);
        assert(above * above >= 4 * n);
        if r < b {
            grid::lemma_units_small(r);
            assert(above * above <= 4 * (b * b)) by (nonlinear_arith)
                requires
                    0 <= above <= 2 * b,
            ;
        }
        grid::lemma_units_step(r - 1);
        precision::lemma_gaps_grow(r - 1);
        precision::lemma_gap_share(r);
        let below = u + u - grid::gap(r - 1);
        assert(below * below <= 4 * n);
        lemma_root_moves(b, u, g, grid::gap(r - 1), n);
    }
}

proof fn lemma_root_moves(b: int, u: int, g: int, f: int, n: int)
    requires
        b >= 16,
        0 < f <= g,
        b * g <= u,
        (u + u - f) * (u + u - f) <= 4 * n,
        (u + (u + g)) * (u + (u + g)) >= 4 * n,
    ensures
        b * abs(u * u - n) <= 4 * n,
{
    let (uu, ug, uf) = (u * u, u * g, u * f);
    assert((u + u - f) * (u + u - f) == 4 * uu - 4 * uf + f * f) by (nonlinear_arith)
        requires
            uu == u * u,
            uf == u * f,
    ;
    assert((u + (u + g)) * (u + (u + g)) == 4 * uu + 4 * ug + g * g) by (nonlinear_arith)
        requires
            uu == u * u,
            ug == u * g,
    ;
    assert(0 <= f * f && uf <= ug && b * ug <= uu && g * g <= ug) by (nonlinear_arith)
        requires
            0 < f <= g,
            b * g <= u,
            b >= 16,
            uu == u * u,
            ug == u * g,
            uf == u * f,
    ;
    assert(uu - n <= ug && n - uu <= 2 * ug);
    assert(b * abs(uu - n) <= 2 * (b * ug)) by (nonlinear_arith)
        requires
            uu - n <= ug,
            n - uu <= 2 * ug,
            0 <= ug,
            b >= 16,
    ;
    assert(16 * ug <= b * ug) by (nonlinear_arith)
        requires
            b >= 16,
            0 <= ug,
    ;
    assert(uu <= 2 * n);
}

/// A standard deviation of n numbers, squared, is the exact variance and the
/// squared error of the mean, off by 2 n + 17 in 2^52, and five units, at most.
pub proof fn lemma_std_dev_accuracy(s: Seq<Binary64>)
    requires
        0 < s.len() <= grid::BINADE / 4,
        stats::std_dev(s).finite(),
    ensures
        ({
            let n = s.len() as int;
            let u = stats::std_dev(s).value();
            let exact = exact_variance(s) + mean_error(s) * mean_error(s);
            grid::BINADE * abs((n * u) * (n * u) - exact) <= (2 * n + 17) * exact + 5 * (
            grid::BINADE * (n * (n * binary64::one())))
        }),
{
    let n = s.len() as int;
    let o = binary64::one();
    lemma_pow2_pos(1074);
    let m = stats::mean(s);
    let qs = stats::squared_deviations(s, m);
    let v = stats::mean(qs);
    assert(v.finite());
    sums::lemma_mean_error(qs);
    sums::lemma_finite_members(qs);
    lemma_squares_error(s, m);
    sums::lemma_size_of_unsigned(qs);
    sums::lemma_total_error(qs);
    stats::lemma_total_sign(qs);
    Binary64::lemma_from_u64_exact(qs.len() as u64);
    laws::lemma_signs(stats::total(qs), Binary64::from_u64(qs.len() as u64));
    precision::lemma_units_natural(v.magnitude());
    precision::lemma_units_natural(stats::total(qs).magnitude());
    lemma_root_error(v);
    lemma_deviations_around_mean(s);
    lemma_deviation_bound(
        n,
        o,
        exact_deviations(s, m.value()),
        sums::exact_total(qs),
        stats::total(qs).value(),
        v.value(),
        stats::std_dev(s).value(),
    );
}

/// The arithmetic of the bound.
#[verifier::rlimit(40)]
proof fn lemma_deviation_bound(n: int, o: int, y: int, q: int, t: int, v: int, u: int)
    requires
        0 < n <= grid::BINADE / 4,
        0 < o,
        0 <= y,
        0 <= q,
        0 <= t,
        0 <= v,
        precision::SHARE * abs(o * q - y) <= 5 * y + grid::BINADE * (n * o),
        grid::BINADE * abs(t - q) <= n * q,
        precision::SHARE * abs(n * v - t) <= t + grid::BINADE * n,
        grid::BINADE * abs(u * u - o * v) <= 4 * (o * v),
    ensures
        grid::BINADE * abs((n * u) * (n * u) - n * y) <= (2 * n + 17) * (n * y) + 5 * (grid::BINADE
            * (n * (n * o))),
{
    let b = grid::BINADE as int;
    let h = precision::SHARE as int;
    let (oq, no, nv, uu, ov) = (o * q, n * o, n * v, u * u, o * v);
    // the squares, exactly and rounded
    assert(no >= 0) by (nonlinear_arith)
        requires
            n > 0,
            o > 0,
            no == n * o,
    ;
    assert(oq <= 2 * y + no);
    // their sum
    let e = abs(t - q) as int;
    assert(b * (o * e) <= n * oq) by (nonlinear_arith)
        requires
            b * e <= n * q,
            o > 0,
            oq == o * q,
    ;
    assert(n * oq <= n * (2 * y + no)) by (nonlinear_arith)
        requires
            oq <= 2 * y + no,
            n > 0,
    ;
    let (ny, nno) = (n * y, n * no);
    assert(n * (2 * y + no) == 2 * ny + nno) by (nonlinear_arith)
        requires
            ny == n * y,
            nno == n * no,
    ;
    assert(0 <= ny && 4 * ny <= b * y && 0 <= nno && 4 * nno <= b * no) by (nonlinear_arith)
        requires
            0 < n,
            4 * n <= b,
            0 <= y,
            0 <= no,
            ny == n * y,
            nno == n * no,
    ;
    let ot = o * t;
    let d = t - q;
    assert(o * d == ot - oq && abs(o * d) == o * e) by (nonlinear_arith)
        requires
            d == t - q,
            e == (if d < 0 { -d } else { d }),
            o > 0,
            ot == o * t,
            oq == o * q,
    ;
    assert(ot <= 3 * y + 2 * no);
    // its quotient
    let f = abs(nv - t) as int;
    let c = nv - t;
    let onv = o * nv;
    assert(o * c == onv - ot && abs(o * c) == o * f) by (nonlinear_arith)
        requires
            c == nv - t,
            f == (if c < 0 { -c } else { c }),
            o > 0,
            ot == o * t,
            onv == o * nv,
    ;
    assert(h * (o * f) <= ot + b * no) by (nonlinear_arith)
        requires
            h * f <= t + b * n,
            o > 0,
            ot == o * t,
            no == n * o,
    ;
    assert(b * abs(onv - y) <= 2 * ny + 8 * y + 3 * (b * no));
    assert(onv <= 2 * y + 3 * no + 3 * no);
    // its root, squared
    let g = abs(uu - ov) as int;
    let k = uu - ov;
    assert(n * ov == onv) by (nonlinear_arith)
        requires
            ov == o * v,
            nv == n * v,
            onv == o * nv,
    ;
    assert(n * k == n * uu - n * ov && abs(n * k) == n * g) by (nonlinear_arith)
        requires
            k == uu - ov,
            g == (if k < 0 { -k } else { k }),
            n > 0,
    ;
    assert(b * (n * g) <= 4 * (n * ov)) by (nonlinear_arith)
        requires
            b * g <= 4 * ov,
            n > 0,
    ;
    let nuu = n * uu;
    assert(b * abs(nuu - y) <= 2 * ny + 17 * y + 5 * (b * no));
    let z = nuu - y;
    let az = abs(z) as int;
    assert(n * z == n * nuu - ny && abs(n * z) == n * az && n * nuu == (n * u) * (n * u))
        by (nonlinear_arith)
        requires
            z == nuu - y,
            az == (if z < 0 { -z } else { z }),
            n > 0,
            ny == n * y,
            nuu == n * uu,
            uu == u * u,
    ;
    assert(b * (n * az) <= 2 * (n * ny) + 17 * ny + 5 * (b * nno)) by (nonlinear_arith)
        requires
            b * az <= 2 * ny + 17 * y + 5 * (b * no),
            n > 0,
            ny == n * y,
            nno == n * no,
    ;
    assert((2 * n + 17) * ny == 2 * (n * ny) + 17 * ny) by (nonlinear_arith);
}

/// Taking one member out takes its part out of the exact sums.
proof fn lemma_take_out(s: Seq<Binary64>, i: int)
    requires
        0 <= i < s.len(),
    ensures
        sums::exact_total(s) == sums::exact_total(s.remove(i)) + s[i].value(),
        sums::exact_size(s) == sums::exact_size(s.remove(i)) + abs(s[i].value()),
        exact_squares(s) == exact_squares(s.remove(i)) + s[i].value() * s[i].value(),
    decreases s.len(),
{
    let (rest, t) = (s.drop_last(), s.remove(i));
    if i == s.len() - 1 {
        assert(t =~= rest);
    } else {
        lemma_take_out(rest, i);
        assert(t.drop_last() =~= rest.remove(i));
        assert(t.last() == s.last());
    }
}

/// The exact sums do not depend on the order.
pub proof fn lemma_exact_sums_shuffled(a: Seq<Binary64>, b: Seq<Binary64>)
    requires
        shuffle::shuffled(a, b),
    ensures
        a.len() == b.len(),
        sums::exact_total(a) == sums::exact_total(b),
        sums::exact_size(a) == sums::exact_size(b),
        exact_squares(a) == exact_squares(b),
    decreases a.len(),
{
    shuffle::lemma_shuffled_filter(a, b, |x: Binary64| true);
    if a.len() > 0 {
        let i = shuffle::lemma_place(a, b);
        lemma_exact_sums_shuffled(a.drop_last(), b.remove(i));
        lemma_take_out(b, i);
    }
}

/// A mean of `n` numbers with this exact sum and size, up to n + 2 in 2^52 of
/// their mean size, and one unit.
pub open spec fn near_mean(mean: Binary64, n: int, total: int, size: int) -> bool {
    &&& mean.finite()
    &&& grid::BINADE * abs(n * mean.value() - total) <= (n + 2) * size + grid::BINADE * n
}

/// A standard deviation of `n` numbers with this exact sum and variance, computed
/// around this mean: its square is the variance and the squared error of the
/// mean, up to 2 n + 17 in 2^52, and five units.
pub open spec fn near_std_dev(
    std_dev: Binary64,
    mean: Binary64,
    n: int,
    total: int,
    variance: int,
) -> bool {
    let error = n * mean.value() - total;
    let exact = variance + error * error;
    let root = n * std_dev.value();
    grid::BINADE * abs(root * root - exact) <= (2 * n + 17) * exact + 5 * (grid::BINADE * (n * (n
        * binary64::one())))
}

/// The order of the prices makes no difference to their mean and standard
/// deviation but for the rounding of the sums: in either order they come as close
/// to the same exact numbers.
pub proof fn lemma_order_moves_rounding_only(a: Seq<Binary64>, b: Seq<Binary64>)
    requires
        shuffle::shuffled(a, b),
        0 < a.len() <= grid::BINADE / 4,
        stats::std_dev(a).finite(),
        stats::std_dev(b).finite(),
    ensures
        ({
            let n = a.len() as int;
            let (size, total, variance) = (
                sums::exact_size(a),
                sums::exact_total(a),
                exact_variance(a),
            );
            &&& near_mean(stats::mean(a), n, total, size)
            &&& near_mean(stats::mean(b), n, total, size)
            &&& near_std_dev(stats::std_dev(a), stats::mean(a), n, total, variance)
            &&& near_std_dev(stats::std_dev(b), stats::mean(b), n, total, variance)
        }),
{
    lemma_exact_sums_shuffled(a, b);
    lemma_mean_finite(a);
    lemma_mean_finite(b);
    lemma_mean_accuracy(a);
    lemma_mean_accuracy(b);
    lemma_std_dev_accuracy(a);
    lemma_std_dev_accuracy(b);
}

proof fn lemma_mean_finite(s: Seq<Binary64>)
    requires
        0 < s.len() <= grid::BINADE / 4,
        stats::std_dev(s).finite(),
    ensures
        stats::mean(s).finite(),
{
    let m = stats::mean(s);
    let qs = stats::squared_deviations(s, m);
    sums::lemma_mean_error(qs);
    sums::lemma_finite_members(qs);
    assert(qs[0].finite());
    lemma_square_error(s[0], m);
}

/// The exact sum lies between the number of members times any bounds of theirs.
proof fn lemma_total_between(s: Seq<Binary64>, lo: int, hi: int)
    requires
        forall|i: int| 0 <= i < s.len() ==> lo <= (#[trigger] s[i]).value() <= hi,
    ensures
        s.len() * lo <= sums::exact_total(s) <= s.len() * hi,
    decreases s.len(),
{
    let n = s.len() as int;
    if n == 0 {
        assert(0 * lo == 0 && 0 * hi == 0);
    } else {
        let rest = s.drop_last();
        assert(s.last() == s[n - 1]);
        assert forall|i: int| 0 <= i < rest.len() implies lo <= (#[trigger] rest[i]).value()
            <= hi by {
            assert(rest[i] == s[i]);
        }
        lemma_total_between(rest, lo, hi);
        assert(n * lo == (n - 1) * lo + lo && n * hi == (n - 1) * hi + hi) by (nonlinear_arith);
    }
}

/// A mean lies between the smallest and the largest number, but for rounding.
proof fn lemma_mean_between(s: Seq<Binary64>, lo: Binary64, hi: Binary64)
    requires
        0 < s.len() <= grid::BINADE / 4,
        stats::mean(s).finite(),
        lo.finite(),
        hi.finite(),
        forall|i: int| 0 <= i < s.len() ==> lo.rank() <= (#[trigger] s[i]).rank() <= hi.rank(),
    ensures
        ({
            let n = s.len() as int;
            let m = stats::mean(s).value();
            let slack = (n + 2) * sums::exact_size(s) + grid::BINADE * n;
            &&& grid::BINADE * (n * m - n * lo.value()) >= -slack
            &&& grid::BINADE * (n * m - n * hi.value()) <= slack
        }),
{
    sums::lemma_mean_error(s);
    sums::lemma_finite_members(s);
    lemma_mean_accuracy(s);
    assert forall|i: int| 0 <= i < s.len() implies lo.value() <= (#[trigger] s[i]).value()
        <= hi.value() by {
        laws::lemma_rank_orders_values(lo, s[i]);
        laws::lemma_rank_orders_values(s[i], hi);
    }
    lemma_total_between(s, lo.value(), hi.value());
}

/// The mean price lies between the smallest and the largest one, up to n + 2 in
/// 2^52 of the mean size of the n prices, and one unit.
pub proof fn lemma_mean_within_range(
    prices: Seq<Binary64>,
    initial: Binary64,
    confidence: Binary64,
)
    requires
        0 < prices.len() <= grid::BINADE / 4,
        stats::mean(prices).finite(),
    ensures
        ({
            let n = prices.len() as int;
            let stats = stats::summary(prices, initial, confidence);
            let slack = (n + 2) * sums::exact_size(prices) + grid::BINADE * n;
            &&& grid::BINADE * (n * stats.mean.value() - n * stats.min.value()) >= -slack
            &&& grid::BINADE * (n * stats.mean.value() - n * stats.max.value()) <= slack
        }),
{
    let s = stats::summary(prices, initial, confidence);
    stats::lemma_order_statistics_are_prices(prices, initial, confidence);
    sums::lemma_mean_error(prices);
    sums::lemma_finite_members(prices);
    assert(s.min.finite() && s.max.finite());
    lemma_mean_between(prices, s.min, s.max);
}

/// The returns in the tail at this confidence, worst first.
pub open spec fn tail_returns(
    prices: Seq<Binary64>,
    initial: Binary64,
    confidence: Binary64,
) -> Seq<Binary64> {
    sort::sorted(stats::return_series(prices, initial)).take(
        stats::tail_len(prices.len() as int, confidence),
    )
}

/// The expected shortfall is no less than the value at risk, up to t + 2 in 2^52
/// of the mean size of the t returns in the tail, and one unit.
pub proof fn lemma_shortfall_exceeds_var(
    prices: Seq<Binary64>,
    initial: Binary64,
    confidence: Binary64,
)
    requires
        0 < prices.len() <= grid::BINADE / 4,
        stats::summary(prices, initial, confidence).cvar.finite(),
    ensures
        ({
            let t = stats::tail_len(prices.len() as int, confidence);
            let tail = tail_returns(prices, initial, confidence);
            let stats = stats::summary(prices, initial, confidence);
            let slack = (t + 2) * sums::exact_size(tail) + grid::BINADE * t;
            grid::BINADE * (t * stats.cvar.value() - t * stats.var.value()) >= -slack
        }),
{
    let t = stats::tail_len(prices.len() as int, confidence);
    let worst = sort::sorted(stats::return_series(prices, initial));
    let tail = worst.take(t);
    let m = stats::mean(tail);
    sort::lemma_sorted(stats::return_series(prices, initial));
    Binary64::lemma_pack(!m.negative(), m.magnitude());
    sums::lemma_mean_error(tail);
    sums::lemma_finite_members(tail);
    let (lo, hi) = (tail[0], tail[t - 1]);
    assert(lo.finite() && hi.finite());
    Binary64::lemma_pack(!hi.negative(), hi.magnitude());
    assert forall|i: int| 0 <= i < tail.len() implies lo.rank() <= (#[trigger] tail[i]).rank()
        <= hi.rank() by {
        assert(tail[i] == worst[i]);
    }
    lemma_mean_between(tail, lo, hi);
    let (x, y) = (m.value(), hi.value());
    assert(t * (-x) == -(t * x) && t * (-y) == -(t * y)) by (nonlinear_arith);
}

/// What is added to the exact sum of the first `u` members by further ones is at
/// least `floor` each, where none of them is less.
proof fn lemma_longer_total(s: Seq<Binary64>, u: int, t: int, floor: int)
    requires
        0 <= u <= t <= s.len(),
        forall|i: int| u <= i < t ==> floor <= (#[trigger] s[i]).value(),
    ensures
        sums::exact_total(s.take(t)) >= sums::exact_total(s.take(u)) + (t - u) * floor,
    decreases t,
{
    if u < t {
        lemma_longer_total(s, u, t - 1, floor);
        assert(s.take(t).drop_last() =~= s.take(t - 1));
        assert(s.take(t).last() == s[t - 1]);
        assert((t - u) * floor == (t - 1 - u) * floor + floor) by (nonlinear_arith);
    } else {
        assert(0 * floor == 0);
    }
}

/// The first members of an ordered sequence have on average no more than a longer
/// run of them.
proof fn lemma_first_average(s: Seq<Binary64>, u: int, t: int)
    requires
        0 < u <= t <= s.len(),
        sort::ordered(s),
        forall|i: int| 0 <= i < t ==> (#[trigger] s[i]).finite(),
    ensures
        t * sums::exact_total(s.take(u)) <= u * sums::exact_total(s.take(t)),
{
    let x = s[u - 1];
    let v = x.value();
    assert forall|i: int| u <= i < t implies v <= (#[trigger] s[i]).value() by {
        laws::lemma_rank_orders_values(x, s[i]);
    }
    lemma_longer_total(s, u, t, v);
    let lo = s[0];
    assert forall|i: int| 0 <= i < s.take(u).len() implies lo.value() <= (#[trigger] s.take(
        u,
    )[i]).value() <= v by {
        assert(s.take(u)[i] == s[i]);
        laws::lemma_rank_orders_values(lo, s[i]);
        laws::lemma_rank_orders_values(s[i], x);
    }
    lemma_total_between(s.take(u), lo.value(), v);
    let (a, b) = (sums::exact_total(s.take(u)), sums::exact_total(s.take(t)));
    let k = t - u;
    let (uv, kv) = (u * v, k * v);
    assert(k * a <= k * uv && k * uv == u * kv && u * kv <= u * (b - a)) by (nonlinear_arith)
        requires
            a <= uv,
            kv <= b - a,
            0 <= k,
            0 < u,
            uv == u * v,
            kv == k * v,
    ;
    assert(t * a == u * a + k * a && u * (b - a) == u * b - u * a) by (nonlinear_arith)
        requires
            k == t - u,
    ;
}

/// More confidence never lowers the expected shortfall, but for rounding. With t
/// returns in the tail at confidence `c`, and u at `d`, the mean loss over each
/// tail is off by t + 2, or u + 2, in 2^52 of the mean size of its returns, and one
/// unit, at most; what the shortfall loses is no more than the two together.
pub proof fn lemma_shortfall_grows_with_confidence(
    prices: Seq<Binary64>,
    initial: Binary64,
    c: Binary64,
    d: Binary64,
)
    requires
        0 < prices.len() <= grid::BINADE / 4,
        !c.nan(),
        !d.nan(),
        c.rank() <= d.rank(),
        stats::summary(prices, initial, c).cvar.finite(),
        stats::summary(prices, initial, d).cvar.finite(),
    ensures
        ({
            let t = stats::tail_len(prices.len() as int, c);
            let u = stats::tail_len(prices.len() as int, d);
            let slack_c = (t + 2) * sums::exact_size(tail_returns(prices, initial, c))
                + grid::BINADE * t;
            let slack_d = (u + 2) * sums::exact_size(tail_returns(prices, initial, d))
                + grid::BINADE * u;
            let before = stats::summary(prices, initial, c).cvar.value();
            let after = stats::summary(prices, initial, d).cvar.value();
            grid::BINADE * (t * u * (after - before)) >= -(u * slack_c + t * slack_d)
        }),
{
    let n = prices.len() as int;
    let (t, u) = (stats::tail_len(n, c), stats::tail_len(n, d));
    let worst = sort::sorted(stats::return_series(prices, initial));
    let (f, g) = (worst.take(t), worst.take(u));
    sort::lemma_sorted(stats::return_series(prices, initial));
    stats::lemma_tail_shrinks(n, c, d);
    let (x, y) = (stats::mean(f), stats::mean(g));
    Binary64::lemma_pack(!x.negative(), x.magnitude());
    Binary64::lemma_pack(!y.negative(), y.magnitude());
    sums::lemma_mean_error(f);
    sums::lemma_finite_members(f);
    assert forall|i: int| 0 <= i < t implies (#[trigger] worst[i]).finite() by {
        assert(f[i] == worst[i]);
    }
    lemma_first_average(worst, u, t);
    lemma_mean_accuracy(f);
    lemma_mean_accuracy(g);
    lemma_means_apart(
        t,
        u,
        x.value(),
        y.value(),
        sums::exact_total(f),
        sums::exact_total(g),
        (t + 2) * sums::exact_size(f) + grid::BINADE * t,
        (u + 2) * sums::exact_size(g) + grid::BINADE * u,
    );
}

/// The arithmetic of the bound: two means, each off by its slack.
proof fn lemma_means_apart(t: int, u: int, x: int, y: int, a: int, b: int, p: int, q: int)
    requires
        0 < t,
        0 < u,
        t * b <= u * a,
        grid::BINADE * abs(t * x - a) <= p,
        grid::BINADE * abs(u * y - b) <= q,
    ensures
        grid::BINADE * (t * u * (-y - (-x))) >= -(u * p + t * q),
{
    let k = grid::BINADE as int;
    let (tx, uy) = (t * x, u * y);
    let (e, f) = (tx - a, uy - b);
    assert(t * u * (-y - (-x)) == u * tx - t * uy) by (nonlinear_arith)
        requires
            tx == t * x,
            uy == u * y,
    ;
    assert(u * tx == u * a + u * e && t * uy == t * b + t * f) by (nonlinear_arith)
        requires
            e == tx - a,
            f == uy - b,
    ;
    assert(k * (u * e) >= -(u * p)) by (nonlinear_arith)
        requires
            k * e >= -p,
            0 < u,
    ;
    assert(k * (t * f) <= t * q) by (nonlinear_arith)
        requires
            k * f <= q,
            0 < t,
    ;
}

/// The mean and the standard deviation that are reported of a sample are its mean and
/// standard deviation: each comes as close to the exact one as said above.
#[verifier::rlimit(40)]
pub proof fn lemma_summary_accuracy(
    prices: Seq<Binary64>,
    initial: Binary64,
    confidence: Binary64,
)
    requires
        0 < prices.len() <= grid::BINADE / 4,
        stats::summary(prices, initial, confidence).mean.finite(),
    ensures
        ({
            let n = prices.len() as int;
            let total = sums::exact_total(prices);
            let stats = stats::summary(prices, initial, confidence);
            &&& near_mean(stats.mean, n, total, sums::exact_size(prices))
            &&& stats.std_dev.finite() ==> near_std_dev(
                stats.std_dev,
                stats.mean,
                n,
                total,
                exact_variance(prices),
            )
        }),
{
    lemma_mean_accuracy(prices);
    if stats::summary(prices, initial, confidence).std_dev.finite() {
        lemma_std_dev_accuracy(prices);
    }
}

} // verus!
