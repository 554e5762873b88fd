//! What the figures on risk are, in terms of the prices: returns, shares of the sample
//! and the tail of losses.
//!
//! Exact values are in units of 2^-1074, of which `one()` make one.
use crate::accuracy;
use crate::binary64;
use crate::binary64::Binary64;
use crate::grid;
use crate::laws;
use crate::precision;
use crate::scale;
use crate::shuffle;
use crate::sort;
use crate::stats;
use crate::sums;
use vstd::arithmetic::div_mod::*;
use vstd::arithmetic::power2::*;
use vstd::math::abs;
use vstd::prelude::*;

verus! {

/// A return is what the price gained on the initial price, as a share of the initial
/// price: the initial price, times one and the return, is the price, up to rounding.
pub proof fn lemma_return(prices: Seq<Binary64>, initial: Binary64, i: int)
    requires
        0 <= i < prices.len(),
        stats::return_series(prices, initial)[i].finite(),
    ensures
        stats::return_series(prices, initial).len() == prices.len(),
        prices[i].finite() && initial.finite() && !initial.zero(),
        ({
            let o = binary64::one();
            let (p, s) = (prices[i].value(), initial.value());
            let r = stats::return_series(prices, initial)[i].value();
            precision::SHARE * abs(s * r - o * (p - s)) <= 3 * (o * abs(p - s)) + grid::BINADE
                * abs(s)
        }),
{
    let o = binary64::one();
    let x = prices[i].sub(initial);
    lemma_pow2_pos(1074);
    Binary64::lemma_pack(!initial.negative(), initial.magnitude());
    Binary64::lemma_pack(x.negative() != initial.negative(), grid::INF as int);
    assert(x.finite());
    sums::lemma_finite_addends(prices[i], initial.neg());
    precision::lemma_sub_error(prices[i], initial);
    precision::lemma_div_error(x, initial);
    let (p, s, g) = (prices[i].value(), initial.value(), x.value());
    let r = x.div(initial).value();
    let h = precision::SHARE as int;
    let d = p - s;
    let e = g - d;
    let (ae, ad, ag) = (abs(e) as int, abs(d) as int, abs(g) as int);
    assert(o * g == o * d + o * e) by (nonlinear_arith)
        requires
            e == g - d,
    ;
    assert(abs(o * e) == o * ae && o * ag <= 2 * (o * ad) && h * (o * ae) <= o * ad)
        by (nonlinear_arith)
        requires
            0 < o,
            ae == (if e < 0 { -e } else { e }),
            ag <= 2 * ad,
            h * ae <= ad,
    ;
}

/// Returns are relative: twice the prices on twice the initial price are the same
/// returns, as long as nothing overflows.
pub proof fn lemma_returns_scale(prices: Seq<Binary64>, initial: Binary64)
    requires
        scale::twice(initial).finite(),
        forall|i: int|
            0 <= i < prices.len() ==> scale::twice(#[trigger] prices[i]).finite() && scale::twice(
                prices[i],
            ).sub(scale::twice(initial)).finite(),
    ensures
        stats::return_series(
            prices.map_values(|p: Binary64| scale::twice(p)),
            scale::twice(initial),
        ) == stats::return_series(prices, initial),
{
    let two = Binary64::from_u64(2);
    let doubled = prices.map_values(|p: Binary64| scale::twice(p));
    let (a, b) = (
        stats::return_series(doubled, scale::twice(initial)),
        stats::return_series(prices, initial),
    );
    scale::lemma_finite_factors(two, initial);
    assert forall|i: int| 0 <= i < prices.len() implies a[i] == b[i] by {
        let p = prices[i];
        assert(scale::twice(prices[i]).finite());
        scale::lemma_finite_factors(two, p);
        scale::lemma_twice_sub(p, initial);
        scale::lemma_twice_div(p.sub(initial), initial);
    }
    assert(a =~= b);
}

/// Risk is relative: at twice the prices on twice the initial price, the value at
/// risk, the expected shortfall and the probability of a loss stay as they are, as
/// long as nothing overflows.
pub proof fn lemma_risk_scales(prices: Seq<Binary64>, initial: Binary64, confidence: Binary64)
    requires
        scale::twice(initial).finite(),
        forall|i: int|
            0 <= i < prices.len() ==> scale::twice(#[trigger] prices[i]).finite() && scale::twice(
                prices[i],
            ).sub(scale::twice(initial)).finite(),
    ensures
        ({
            let doubled = prices.map_values(|p: Binary64| scale::twice(p));
            let before = stats::summary(prices, initial, confidence);
            let after = stats::summary(doubled, scale::twice(initial), confidence);
            &&& after.var == before.var
            &&& after.cvar == before.cvar
            &&& after.prob_loss == before.prob_loss
        }),
{
    lemma_returns_scale(prices, initial);
    lemma_losses_scale(prices, initial);
}

proof fn lemma_losses_scale(prices: Seq<Binary64>, initial: Binary64)
    requires
        scale::twice(initial).finite(),
        forall|i: int|
            0 <= i < prices.len() ==> scale::twice(#[trigger] prices[i]).finite(),
    ensures
        stats::count_below(
            prices.map_values(|p: Binary64| scale::twice(p)),
            scale::twice(initial),
        ) == stats::count_below(prices, initial),
    decreases prices.len(),
{
    let two = Binary64::from_u64(2);
    let double = |p: Binary64| scale::twice(p);
    let doubled = prices.map_values(double);
    let f = |x: Binary64| x.lt(scale::twice(initial));
    let g = |x: Binary64| x.lt(initial);
    if prices.len() == 0 {
        assert(doubled =~= Seq::<Binary64>::empty());
        doubled.lemma_filter_len(f);
        prices.lemma_filter_len(g);
    } else {
        let (rest, x) = (prices.drop_last(), prices.last());
        assert(x == prices[prices.len() - 1]);
        assert forall|i: int| 0 <= i < rest.len() implies scale::twice(
            #[trigger] rest[i],
        ).finite() by {
            assert(rest[i] == prices[i]);
        }
        lemma_losses_scale(rest, initial);
        assert(prices =~= rest.push(x));
        assert(doubled =~= rest.map_values(double).push(scale::twice(x)));
        rest.lemma_filter_push(x, g);
        rest.map_values(double).lemma_filter_push(scale::twice(x), f);
        scale::lemma_finite_factors(two, x);
        scale::lemma_finite_factors(two, initial);
        scale::lemma_twice(x);
        scale::lemma_twice(initial);
        laws::lemma_rank_orders_values(x, initial);
        laws::lemma_rank_orders_values(scale::twice(x), scale::twice(initial));
    }
}

/// Ranking below `rank`.
pub open spec fn ranks_below(rank: int) -> spec_fn(Binary64) -> bool {
    |x: Binary64| x.rank() < rank
}

/// Ranking no higher than `rank`.
pub open spec fn ranks_up_to(rank: int) -> spec_fn(Binary64) -> bool {
    |x: Binary64| x.rank() <= rank
}

proof fn lemma_filter_all(s: Seq<Binary64>, p: spec_fn(Binary64) -> bool)
    requires
        forall|i: int| 0 <= i < s.len() ==> p(#[trigger] s[i]),
    ensures
        s.filter(p).len() == s.len(),
    decreases s.len(),
{
    s.lemma_filter_len(p);
    if s.len() > 0 {
        let (rest, x) = (s.drop_last(), s.last());
        assert(x == s[s.len() - 1]);
        assert forall|i: int| 0 <= i < rest.len() implies p(#[trigger] rest[i]) by {
            assert(rest[i] == s[i]);
        }
        lemma_filter_all(rest, p);
        rest.lemma_filter_push(x, p);
        assert(s =~= rest.push(x));
    }
}

proof fn lemma_filter_none(s: Seq<Binary64>, p: spec_fn(Binary64) -> bool)
    requires
        forall|i: int| 0 <= i < s.len() ==> !p(#[trigger] s[i]),
    ensures
        s.filter(p).len() == 0,
    decreases s.len(),
{
    s.lemma_filter_len(p);
    if s.len() > 0 {
        let (rest, x) = (s.drop_last(), s.last());
        assert(x == s[s.len() - 1]);
        assert forall|i: int| 0 <= i < rest.len() implies !p(#[trigger] rest[i]) by {
            assert(rest[i] == s[i]);
        }
        lemma_filter_none(rest, p);
        rest.lemma_filter_push(x, p);
        assert(s =~= rest.push(x));
    }
}

/// What stands at place `j` of a sample, sorted: at most `j` members rank below it,
/// and more than `j` no higher.
proof fn lemma_order_statistic(s: Seq<Binary64>, j: int)
    requires
        0 <= j < s.len(),
    ensures
        s.contains(sort::sorted(s)[j]),
        s.filter(ranks_below(sort::sorted(s)[j].rank())).len() <= j,
        j < s.filter(ranks_up_to(sort::sorted(s)[j].rank())).len(),
{
    let w = sort::sorted(s);
    let x = w[j];
    sort::lemma_sorted(s);
    sort::lemma_sorted_members(s, x);
    assert(w.contains(x));
    let (f, g) = (ranks_below(x.rank()), ranks_up_to(x.rank()));
    shuffle::lemma_shuffled_filter(s, w, f);
    shuffle::lemma_shuffled_filter(s, w, g);
    let (a, b) = (w.take(j), w.skip(j));
    assert(w =~= a + b);
    Seq::filter_distributes_over_add(a, b, f);
    a.lemma_filter_len(f);
    assert forall|i: int| 0 <= i < b.len() implies !f(#[trigger] b[i]) by {
        assert(b[i] == w[j + i]);
        assert(w[j].rank() <= w[j + i].rank());
    }
    lemma_filter_none(b, f);
    let (c, d) = (w.take(j + 1), w.skip(j + 1));
    assert(w =~= c + d);
    Seq::filter_distributes_over_add(c, d, g);
    d.lemma_filter_len(g);
    assert forall|i: int| 0 <= i < c.len() implies g(#[trigger] c[i]) by {
        assert(c[i] == w[i]);
        if i < j {
            assert(w[i].rank() <= w[j].rank());
        }
    }
    lemma_filter_all(c, g);
}

/// The value at risk is one of the losses: with t returns in the tail, fewer than t
/// returns are worse than it, and t at least no better.
pub proof fn lemma_var_is_a_loss(prices: Seq<Binary64>, initial: Binary64, confidence: Binary64)
    requires
        0 < prices.len() <= u64::MAX,
    ensures
        ({
            let series = stats::return_series(prices, initial);
            let t = stats::tail_len(prices.len() as int, confidence);
            let worst = stats::summary(prices, initial, confidence).var.neg();
            &&& series.contains(worst)
            &&& series.filter(ranks_below(worst.rank())).len() < t
            &&& t <= series.filter(ranks_up_to(worst.rank())).len()
        }),
{
    let series = stats::return_series(prices, initial);
    let t = stats::tail_len(prices.len() as int, confidence);
    let x = sort::sorted(series)[t - 1];
    Binary64::lemma_pack(!x.negative(), x.magnitude());
    assert(x.neg().neg() == x);
    lemma_order_statistic(series, t - 1);
}

/// The expected shortfall is the mean loss over the tail: with t returns in it, t
/// times the shortfall is the sum of the losses, off by t + 2 in 2^52 of their size,
/// and t units, at most.
pub proof fn lemma_shortfall_accuracy(
    prices: Seq<Binary64>,
    initial: Binary64,
    confidence: Binary64,
)
    requires
        0 < prices.len() <= grid::BINADE / 4,
        stats::summary(prices, initial, confidence).cvar.finite(),
    ensures
        ({
            let t = stats::tail_len(prices.len() as int, confidence);
            let tail = accuracy::tail_returns(prices, initial, confidence);
            let cvar = stats::summary(prices, initial, confidence).cvar.value();
            &&& tail.len() == t
            &&& grid::BINADE * abs(t * cvar + sums::exact_total(tail)) <= (t + 2)
                * sums::exact_size(tail) + grid::BINADE * t
        }),
{
    let t = stats::tail_len(prices.len() as int, confidence);
    let tail = accuracy::tail_returns(prices, initial, confidence);
    sort::lemma_sorted(stats::return_series(prices, initial));
    let m = stats::mean(tail);
    Binary64::lemma_pack(!m.negative(), m.magnitude());
    accuracy::lemma_mean_accuracy(tail);
    let x = m.value();
    assert(t * (-x) == -(t * x)) by (nonlinear_arith);
}

/// The tail at a confidence from zero to one is that share of the returns that the
/// confidence leaves, rounded up to a whole number: neither shorter, nor by one or
/// more longer, but for rounding.
#[verifier::rlimit(40)]
pub proof fn lemma_tail_is_a_share(n: int, confidence: Binary64)
    requires
        0 < n <= 2 * grid::BINADE,
        n <= usize::MAX,
        confidence.finite(),
        0 <= confidence.value() <= binary64::one(),
    ensures
        ({
            let o = binary64::one();
            let t = stats::tail_len(n, confidence);
            let share = (o - confidence.value()) * n;
            &&& 1 <= t <= n
            &&& precision::SHARE * (t * o) >= precision::SHARE * share - (4 * share + 2
                * grid::BINADE)
            &&& t > 1 ==> precision::SHARE * ((t - 1) * o) < precision::SHARE * share + (4 * share
                + 2 * grid::BINADE)
        }),
{
    let o = binary64::one();
    let one = Binary64::from_u64(1);
    let len = Binary64::from_u64(n as u64);
    let s = one.sub(confidence);
    let p = s.mul(len);
    lemma_pow2_pos(1074);
    Binary64::lemma_from_u64_exact(1);
    Binary64::lemma_from_u64_exact(n as u64);
    Binary64::lemma_pack(!confidence.negative(), confidence.magnitude());
    precision::lemma_units_natural(confidence.magnitude());
    let c = o - confidence.value();
    // the share that is left, at most one
    grid::lemma_rounded(c, 1);
    precision::lemma_rounding_bound(c, 1, one.magnitude());
    Binary64::lemma_pack(false, grid::rounded(c, 1));
    grid::lemma_units_small(0);
    if c == 0 {
        Binary64::lemma_pack(one.negative() && !confidence.negative(), 0);
    }
    precision::lemma_units_natural(grid::rounded(c, 1));
    assert(s.finite() && !s.negative() && 0 <= s.value() <= o);
    precision::lemma_sub_error(one, confidence);
    // its product with the length, at most the length
    let (u, v) = (grid::units(s.magnitude()), n * o);
    precision::lemma_units_natural(s.magnitude());
    assert(0 <= u * v <= o * v) by (nonlinear_arith)
        requires
            0 <= u <= o,
            v == n * o,
            0 < n,
            0 < o,
    ;
    precision::lemma_rounding_bound(u * v, o, len.magnitude());
    grid::lemma_rounded(u * v, o);
    Binary64::lemma_pack(false, grid::rounded(u * v, o));
    precision::lemma_units_natural(grid::rounded(u * v, o));
    precision::lemma_mul_error(s, len);
    let (x, y) = (s.value(), p.value());
    lemma_share_bound(o, n, c, x, y);
    // rounded up
    let cut = (y + o - 1) / o;
    lemma_fundamental_div_mod(y + o - 1, o);
    lemma_mod_bound(y + o - 1, o);
    assert(y <= cut * o && cut * o < y + o) by {
        assert(o * cut == cut * o) by (nonlinear_arith);
    }
    assert(cut <= n) by (nonlinear_arith)
        requires
            cut * o < y + o,
            y <= n * o,
            0 < o,
    ;
    assert(0 <= cut) by (nonlinear_arith)
        requires
            y <= cut * o,
            0 <= y,
            0 < o,
    ;
    let t = stats::tail_len(n, confidence);
    assert(t == if cut < 1 { 1 } else { cut });
    if cut < 1 {
        assert(0 * o == 0);
        assert(1 * o == o);
    }
    assert((t - 1) * o == t * o - o) by (nonlinear_arith);
}

proof fn lemma_share_bound(o: int, n: int, c: int, x: int, y: int)
    requires
        0 < o,
        0 < n,
        0 <= c,
        0 <= x,
        precision::SHARE * abs(x - c) <= abs(c),
        precision::SHARE * abs(o * y - x * (n * o)) <= abs(x * (n * o)) + grid::BINADE * o,
    ensures
        precision::SHARE * abs(y - c * n) <= 4 * (c * n) + 2 * grid::BINADE,
{
    let h = precision::SHARE as int;
    let b = grid::BINADE as int;
    let (xn, cn) = (x * n, c * n);
    assert(x * (n * o) == o * xn && 0 <= o * xn) by (nonlinear_arith)
        requires
            xn == x * n,
            0 <= x,
            0 < n,
            0 < o,
    ;
    let e = y - xn;
    let a = abs(e) as int;
    assert(o * y - o * xn == o * e && abs(o * e) == o * a) by (nonlinear_arith)
        requires
            e == y - xn,
            0 < o,
            a == (if e < 0 { -e } else { e }),
    ;
    assert(h * a <= xn + b) by (nonlinear_arith)
        requires
            h * (o * a) <= o * xn + b * o,
            0 < o,
    ;
    let d = x - c;
    let f = abs(d) as int;
    assert(d * n == xn - cn && abs(d * n) == f * n && h * (f * n) <= cn && 0 <= cn && xn <= 2 * cn)
        by (nonlinear_arith)
        requires
            d == x - c,
            xn == x * n,
            cn == c * n,
            0 < n,
            0 <= c,
            f == (if d < 0 { -d } else { d }),
            h * f <= c,
            x <= 2 * c,
    ;
}

/// At a confidence of one or more the tail is the worst return alone, and at one of
/// zero or less it is all returns.
pub proof fn lemma_tail_at_the_ends(n: int, confidence: Binary64)
    requires
        0 < n <= grid::BINADE / 4,
        n <= usize::MAX,
        !confidence.nan(),
    ensures
        confidence.rank() >= Binary64::from_u64(1).rank() ==> stats::tail_len(n, confidence) == 1,
        confidence.rank() <= 0 ==> stats::tail_len(n, confidence) == n,
{
    let one = Binary64::from_u64(1);
    let o = binary64::one();
    lemma_pow2_pos(1074);
    Binary64::lemma_from_u64_exact(1);
    grid::lemma_units_small(0);
    Binary64::lemma_from_zero();
    let zero = Binary64::from_u64(0);
    if confidence.rank() >= one.rank() {
        if confidence.rank() > one.rank() {
            stats::lemma_tail_shrinks(n, one, confidence);
        } else {
            assert(confidence == one);
        }
        lemma_tail_is_a_share(n, one);
        assert(0 * n == 0);
        let t = stats::tail_len(n, one);
        if t > 1 {
            assert(o <= (t - 1) * o) by (nonlinear_arith)
                requires
                    t > 1,
                    0 < o,
            ;
            lemma2_to64();
            lemma2_to64_rest();
            lemma_pow2_strictly_increases(63, 1074);
        }
    }
    if confidence.rank() <= 0 {
        stats::lemma_tail_shrinks(n, confidence, zero);
        lemma_tail_is_a_share(n, zero);
        let t = stats::tail_len(n, zero);
        let (s, to) = (o * n, t * o);
        assert(zero.value() == 0);
        assert(0 <= 4 * s <= grid::BINADE * o && (t <= n - 1 ==> to <= s - o)) by (nonlinear_arith)
            requires
                s == o * n,
                to == t * o,
                0 < 4 * n <= grid::BINADE,
                0 < o,
        ;
        lemma2_to64();
        lemma2_to64_rest();
        lemma_pow2_strictly_increases(63, 1074);
        assert(stats::tail_len(n, confidence) <= n);
        if t <= n - 1 {
            assert(precision::SHARE * to <= precision::SHARE * s - precision::SHARE * o)
                by (nonlinear_arith)
                requires
                    to <= s - o,
                    precision::SHARE >= 0,
            ;
        }
    }
}

/// Being a number, and less than `bound`.
pub open spec fn less_than(bound: Binary64) -> spec_fn(Binary64) -> bool {
    |x: Binary64| !x.nan() && x.rank() < bound.rank()
}

/// The probability of a loss is the share of the prices that are less than the
/// initial one: times the number of prices it is the number of those, up to rounding.
pub proof fn lemma_prob_loss_accuracy(
    prices: Seq<Binary64>,
    initial: Binary64,
    confidence: Binary64,
)
    requires
        0 < prices.len() <= 2 * grid::BINADE,
        !initial.nan(),
    ensures
        ({
            let o = binary64::one();
            let n = prices.len() as int;
            let losses = prices.filter(less_than(initial)).len();
            let share = stats::summary(prices, initial, confidence).prob_loss;
            &&& share.finite()
            &&& precision::SHARE * abs(n * share.value() - losses * o) <= losses * o + grid::BINADE
                * n
            &&& losses == 0 ==> share.value() == 0
            &&& losses == n ==> share.value() == o
        }),
{
    let o = binary64::one();
    let n = prices.len() as int;
    let f = |x: Binary64| x.lt(initial);
    assert(f =~= less_than(initial));
    prices.lemma_filter_len(f);
    let k = stats::count_below(prices, initial) as int;
    let (a, b) = (Binary64::from_u64(k as u64), Binary64::from_u64(n as u64));
    lemma_pow2_pos(1074);
    Binary64::lemma_from_u64_exact(k as u64);
    Binary64::lemma_from_u64_exact(n as u64);
    Binary64::lemma_from_u64_exact(1);
    grid::lemma_units_small(0);
    stats::lemma_prob_loss_is_a_share(prices, initial, confidence);
    let share = a.div(b);
    let one = Binary64::from_u64(1);
    assert(b.value() > 0) by (nonlinear_arith)
        requires
            b.value() == n * o,
            n > 0,
            o > 0,
    ;
    assert(share.finite());
    precision::lemma_div_error(a, b);
    let y = share.value();
    let h = precision::SHARE as int;
    let e = n * y - k * o;
    assert((n * o) * y - o * (k * o) == o * e) by (nonlinear_arith)
        requires
            e == n * y - k * o,
    ;
    let ae = abs(e) as int;
    let ko = k * o;
    assert(0 <= ko && abs(o * e) == o * ae) by (nonlinear_arith)
        requires
            ko == k * o,
            0 <= k,
            0 < o,
            ae == (if e < 0 { -e } else { e }),
    ;
    assert(h * ae <= ko + grid::BINADE * n) by (nonlinear_arith)
        requires
            h * (o * ae) <= o * ko + grid::BINADE * (n * o),
            0 < o,
    ;
    let d = n * o;
    if k == 0 {
        assert(0 * o == 0);
        assert(a.value() == 0);
        assert(0 * o == d * 0) by (nonlinear_arith);
        grid::lemma_rounded_exact(0, d);
        Binary64::lemma_pack(false, 0);
    }
    if k == n {
        assert(d * o == d * grid::units(one.magnitude()));
        grid::lemma_rounded_exact(one.magnitude(), d);
        Binary64::lemma_pack(false, one.magnitude());
    }
}

/// Where a percentile stands: the place nearest to that share of the way from the
/// first to the last.
#[verifier::rlimit(40)]
pub proof fn lemma_percentile_place(n: int, k: u64)
    requires
        0 < n <= 0x100_0000_0000,
        n <= usize::MAX,
        k <= 95,
    ensures
        stats::percentile_index(n, stats::percent(k)) < n,
        abs(100 * stats::percentile_index(n, stats::percent(k)) - k * (n - 1)) <= 50,
{
    let o = binary64::one();
    let m = n - 1;
    let a = Binary64::from_u64(m as u64);
    let p = stats::percent(k);
    let y = a.mul(p);
    stats::lemma_percentile_in_range(n, k);
    lemma_pow2_pos(1074);
    lemma2_to64();
    lemma2_to64_rest();
    lemma_pow2_strictly_increases(63, 1074);
    Binary64::lemma_from_u64_exact(m as u64);
    stats::lemma_percent_finite(k);
    // the share
    grid::lemma_rounded(k * o, 100);
    assert(0 <= k * o) by (nonlinear_arith)
        requires
            0 <= k,
            0 < o,
    ;
    Binary64::lemma_pack(false, grid::rounded(k * o, 100));
    precision::lemma_rounding_error(k * o, 100);
    if k > 0 {
        assert(k * o >= o) by (nonlinear_arith)
            requires
                k >= 1,
                o > 0,
        ;
    } else {
        assert(0 * o == 0);
        grid::lemma_units_small(0);
        grid::lemma_rounded_exact(0, 100);
    }
    precision::lemma_units_natural(p.magnitude());
    // at most the whole way
    let (u, v) = (grid::units(a.magnitude()), grid::units(p.magnitude()));
    precision::lemma_units_natural(a.magnitude());
    let one = Binary64::from_u64(1);
    Binary64::lemma_from_u64_exact(1);
    assert(1 * o == o);
    assert(k * o <= 100 * o) by (nonlinear_arith)
        requires
            k <= 95,
            0 < o,
    ;
    precision::lemma_rounding_bound(k * o, 100, one.magnitude());
    assert(0 <= u * v <= o * u) by (nonlinear_arith)
        requires
            0 <= u,
            0 <= v <= o,
    ;
    precision::lemma_rounding_bound(u * v, o, a.magnitude());
    grid::lemma_rounded(u * v, o);
    Binary64::lemma_pack(false, grid::rounded(u * v, o));
    precision::lemma_units_natural(grid::rounded(u * v, o));
    precision::lemma_mul_error(a, p);
    let (pc, yv) = (p.value(), y.value());
    let idx = (2 * yv + o) / (2 * o);
    lemma_fundamental_div_mod(2 * yv + o, 2 * o);
    lemma_mod_bound(2 * yv + o, 2 * o);
    assert(2 * o * idx == 2 * (o * idx)) by (nonlinear_arith);
    lemma_place_bound(o, m, k as int, pc, yv, idx);
    let place = stats::percentile_index(n, p);
    assert(0 <= idx <= m) by (nonlinear_arith)
        requires
            2 * (o * idx) <= 2 * yv + o,
            2 * yv + o < 2 * (o * idx) + 2 * o,
            0 <= yv <= m * o,
            0 < o,
    ;
    assert(place == idx);
}

#[verifier::rlimit(40)]
proof fn lemma_place_bound(o: int, m: int, k: int, pc: int, y: int, idx: int)
    requires
        0x8000_0000_0000_0000 <= o,
        0 <= m <= 0x100_0000_0000,
        0 <= k <= 95,
        0 <= pc <= o,
        precision::SHARE * abs(k * o - 100 * pc) <= k * o,
        precision::SHARE * abs(o * y - (m * o) * pc) <= abs((m * o) * pc) + grid::BINADE * o,
        2 * (o * idx) <= 2 * y + o < 2 * (o * idx) + 2 * o,
    ensures
        abs(100 * idx - k * m) <= 50,
{
    let h = precision::SHARE as int;
    let b = grid::BINADE as int;
    let mp = m * pc;
    let mo = m * o;
    assert((m * o) * pc == o * mp && 0 <= mp <= mo && 0 <= o * mp) by (nonlinear_arith)
        requires
            mp == m * pc,
            mo == m * o,
            0 <= m,
            0 <= pc <= o,
            0 < o,
    ;
    let e = y - mp;
    let ae = abs(e) as int;
    assert(o * y - o * mp == o * e && abs(o * e) == o * ae) by (nonlinear_arith)
        requires
            e == y - mp,
            0 < o,
            ae == (if e < 0 { -e } else { e }),
    ;
    assert(h * ae <= mp + b) by (nonlinear_arith)
        requires
            h * (o * ae) <= o * mp + b * o,
            0 < o,
    ;
    assert(mo <= 0x100_0000_0000 * o) by (nonlinear_arith)
        requires
            mo == m * o,
            m <= 0x100_0000_0000,
            0 < o,
    ;
    assert(1000 * ae <= o);
    // the share, taken m times
    let d = k * o - 100 * pc;
    let ad = abs(d) as int;
    assert(0 <= k * o <= 95 * o) by (nonlinear_arith)
        requires
            0 <= k <= 95,
            0 < o,
    ;
    let km = k * m;
    assert(m * d == km * o - 100 * mp && abs(m * d) == m * ad && h * (m * ad) <= 95 * mo)
        by (nonlinear_arith)
        requires
            d == k * o - 100 * pc,
            mp == m * pc,
            km == k * m,
            mo == m * o,
            0 <= m,
            0 < o,
            ad == (if d < 0 { -d } else { d }),
            h * ad <= 95 * o,
    ;
    assert(10 * abs(m * d) <= o);
    let z = 100 * idx - km;
    assert(o * z == 100 * (o * idx) - km * o) by (nonlinear_arith)
        requires
            z == 100 * idx - km,
    ;
    assert(2 * abs(o * z) <= 101 * o);
    assert(abs(z) <= 50) by (nonlinear_arith)
        requires
            -101 * o <= 2 * (o * z),
            2 * (o * z) <= 101 * o,
            0 < o,
    ;
}

/// `x` is a price at the share `k` percent of a sample: it occurs, and no more than
/// that share of the other prices, up to half a place, are less than it or more.
pub open spec fn at_share(prices: Seq<Binary64>, x: Binary64, k: int) -> bool {
    let n = prices.len() as int;
    &&& prices.contains(x)
    &&& 100 * prices.filter(ranks_below(x.rank())).len() <= k * (n - 1) + 50
    &&& 100 * (n - prices.filter(ranks_up_to(x.rank())).len()) <= (100 - k) * (n - 1) + 50
}

proof fn lemma_at_share(prices: Seq<Binary64>, k: u64)
    requires
        0 < prices.len() <= 0x100_0000_0000,
        prices.len() <= usize::MAX,
        k <= 95,
    ensures
        at_share(prices, stats::at_percentile(sort::sorted(prices), k), k as int),
{
    let n = prices.len() as int;
    let idx = stats::percentile_index(n, stats::percent(k)) as int;
    sort::lemma_sorted(prices);
    lemma_percentile_place(n, k);
    lemma_order_statistic(prices, idx);
    assert((100 - k) * (n - 1) == 100 * (n - 1) - k * (n - 1)) by (nonlinear_arith);
}

/// The median and the other percentiles split the prices in their shares.
pub proof fn lemma_percentiles_split(
    prices: Seq<Binary64>,
    initial: Binary64,
    confidence: Binary64,
)
    requires
        0 < prices.len() <= 0x100_0000_0000,
        prices.len() <= usize::MAX,
    ensures
        ({
            let stats = stats::summary(prices, initial, confidence);
            &&& at_share(prices, stats.p05, 5)
            &&& at_share(prices, stats.p25, 25)
            &&& at_share(prices, stats.median, 50)
            &&& at_share(prices, stats.p75, 75)
            &&& at_share(prices, stats.p95, 95)
        }),
{
    sort::lemma_sorted(prices);
    lemma_at_share(prices, 5);
    lemma_at_share(prices, 25);
    lemma_at_share(prices, 50);
    lemma_at_share(prices, 75);
    lemma_at_share(prices, 95);
}

/// A confidence that is not a number leaves the worst return alone in the tail.
pub proof fn lemma_tail_without_confidence(n: int, confidence: Binary64)
    requires
        0 < n,
        confidence.nan(),
    ensures
        stats::tail_len(n, confidence) == 1,
{
    Binary64::lemma_pack(!confidence.negative(), confidence.magnitude());
}

/// Where any percentile from zero to one stands: the place nearest to that share of the
/// way from the first to the last, but for rounding.
pub proof fn lemma_percentile_place_of(n: int, pct: Binary64)
    requires
        0 < n <= 2 * grid::BINADE,
        n <= usize::MAX,
        pct.finite(),
        0 <= pct.value() <= binary64::one(),
    ensures
        ({
            let o = binary64::one();
            let way = (n - 1) * pct.value();
            let place = stats::percentile_index(n, pct);
            &&& place < n
            &&& precision::SHARE * abs(2 * (o * place) - 2 * way) <= precision::SHARE * o + 2 * (way
                + grid::BINADE)
        }),
{
    let o = binary64::one();
    let m = n - 1;
    let a = Binary64::from_u64(m as u64);
    let y = a.mul(pct);
    lemma_pow2_pos(1074);
    grid::lemma_units_small(0);
    Binary64::lemma_from_u64_exact(m as u64);
    Binary64::lemma_from_u64_exact(1);
    precision::lemma_units_natural(a.magnitude());
    precision::lemma_units_natural(pct.magnitude());
    let (u, v) = (grid::units(a.magnitude()), grid::units(pct.magnitude()));
    assert(0 <= u * v <= o * u) by (nonlinear_arith)
        requires
            0 <= u,
            0 <= v <= o,
    ;
    precision::lemma_rounding_bound(u * v, o, a.magnitude());
    grid::lemma_rounded(u * v, o);
    let r = grid::rounded(u * v, o);
    Binary64::lemma_pack(pct.negative(), r);
    precision::lemma_units_natural(r);
    precision::lemma_mul_error(a, pct);
    if pct.negative() {
        assert(v == 0);
        assert(u * 0 == 0 && o * 0 == 0);
        grid::lemma_rounded_exact(0, o);
    }
    let (pc, yv) = (pct.value(), y.value());
    assert(0 <= yv <= m * o);
    let mp = m * pc;
    assert((m * o) * pc == o * mp && 0 <= mp && 0 <= o * mp) by (nonlinear_arith)
        requires
            mp == m * pc,
            0 <= m,
            0 <= pc,
            0 < o,
    ;
    let e = yv - mp;
    let ae = abs(e) as int;
    assert(o * yv - o * mp == o * e && abs(o * e) == o * ae) by (nonlinear_arith)
        requires
            e == yv - mp,
            0 < o,
            ae == (if e < 0 { -e } else { e }),
    ;
    let h = precision::SHARE as int;
    assert(h * ae <= mp + grid::BINADE) by (nonlinear_arith)
        requires
            h * (o * ae) <= o * mp + grid::BINADE * o,
            0 < o,
    ;
    let idx = (2 * yv + o) / (2 * o);
    lemma_fundamental_div_mod(2 * yv + o, 2 * o);
    lemma_mod_bound(2 * yv + o, 2 * o);
    assert(2 * o * idx == 2 * (o * idx)) by (nonlinear_arith);
    assert(0 <= idx <= m) by (nonlinear_arith)
        requires
            2 * (o * idx) <= 2 * yv + o,
            2 * yv + o < 2 * (o * idx) + 2 * o,
            0 <= yv <= m * o,
            0 < o,
    ;
    let place = stats::percentile_index(n, pct);
    if pct.negative() {
        assert(yv == 0);
        assert(idx == 0) by (nonlinear_arith)
            requires
                2 * (o * idx) <= o,
                0 <= idx,
                0 < o,
        ;
    }
    assert(place == idx);
}

} // verus!
