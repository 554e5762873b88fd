//! Statistics of the simulated final prices.
use crate::binary64;
use crate::binary64::Binary64;
use crate::grid;
use crate::laws;
use crate::sort;
use vstd::arithmetic::power2::*;
use vstd::prelude::*;

verus! {

/// Statistics of a sample of final prices.
#[derive(Clone, Copy, Debug)]
pub struct Stats {
    pub mean: Binary64,
    pub std_dev: Binary64,
    pub min: Binary64,
    pub max: Binary64,
    pub median: Binary64,
    pub p05: Binary64,
    pub p25: Binary64,
    pub p75: Binary64,
    pub p95: Binary64,
    /// The share of prices below the initial one.
    pub prob_loss: Binary64,
    /// Value at risk: the loss, as a positive number, that the tail starts with.
    pub var: Binary64,
    /// Conditional value at risk: the mean loss over the tail.
    pub cvar: Binary64,
}

/// The members added up from the left, starting from negative zero, which
/// leaves the first one as it is.
pub open spec fn total(s: Seq<Binary64>) -> Binary64
    decreases s.len(),
{
    if s.len() == 0 {
        Binary64 { bits: binary64::SIGN }
    } else {
        total(s.drop_last()).add(s.last())
    }
}

/// The mean of a sample.
pub open spec fn mean(s: Seq<Binary64>) -> Binary64 {
    total(s).div(Binary64::from_u64(s.len() as u64))
}

/// The squared distance of each member from `center`.
pub open spec fn squared_deviations(s: Seq<Binary64>, center: Binary64) -> Seq<Binary64> {
    s.map_values(|x: Binary64| x.sub(center).mul(x.sub(center)))
}

/// The standard deviation of a sample, with the sample's length as divisor.
pub open spec fn std_dev(s: Seq<Binary64>) -> Binary64 {
    mean(squared_deviations(s, mean(s))).sqrt()
}

/// Where the percentile `pct` stands in a sorted sample of length `n`.
pub open spec fn percentile_index(n: int, pct: Binary64) -> usize {
    Binary64::from_u64((n - 1) as u64).mul(pct).round_to_usize()
}

/// How many members are below `bound`.
pub open spec fn count_below(s: Seq<Binary64>, bound: Binary64) -> nat {
    s.filter(|x: Binary64| x.lt(bound)).len()
}

/// The simple return on `initial` of each price.
pub open spec fn return_series(prices: Seq<Binary64>, initial: Binary64) -> Seq<Binary64> {
    prices.map_values(|p: Binary64| p.sub(initial).div(initial))
}

/// How many of `n` returns form the tail at this confidence: at least one, at
/// most all.
pub open spec fn tail_len(n: int, confidence: Binary64) -> int {
    let share = Binary64::from_u64(1).sub(confidence);
    let cut = share.mul(Binary64::from_u64(n as u64)).ceil_to_usize();
    if cut > n {
        n
    } else if cut < 1 {
        1
    } else {
        cut as int
    }
}

/// `k` percent.
pub open spec fn percent(k: u64) -> Binary64 {
    Binary64::ratio(k, 100)
}

/// The member of a sorted sample at percentile `k`.
pub open spec fn at_percentile(sorted: Seq<Binary64>, k: u64) -> Binary64 {
    sorted[percentile_index(sorted.len() as int, percent(k)) as int]
}

/// The statistics of the final prices, as a whole.
pub open spec fn summary(prices: Seq<Binary64>, initial: Binary64, confidence: Binary64) -> Stats {
    let n = prices.len() as int;
    let sorted = sort::sorted(prices);
    let tail = tail_len(n, confidence);
    let worst = sort::sorted(return_series(prices, initial));
    Stats {
        mean: mean(prices),
        std_dev: std_dev(prices),
        min: sorted[0],
        max: sorted[n - 1],
        median: at_percentile(sorted, 50),
        p05: at_percentile(sorted, 5),
        p25: at_percentile(sorted, 25),
        p75: at_percentile(sorted, 75),
        p95: at_percentile(sorted, 95),
        prob_loss: Binary64::from_u64(count_below(prices, initial) as u64).div(
            Binary64::from_u64(n as u64),
        ),
        var: worst[tail - 1].neg(),
        cvar: mean(worst.take(tail)).neg(),
    }
}

fn sum(s: &[Binary64]) -> (x: Binary64)
    ensures
        x == total(s@),
{
    let mut x: Binary64 = Binary64 { bits: binary64::SIGN };
    let n: usize = s.len();
    let mut i: usize = 0;
    proof {
        assert(s@.take(0) =~= Seq::<Binary64>::empty());
    }
    while i < n
        invariant
            n == s@.len(),
            i <= n,
            x == total(s@.take(i as int)),
        decreases n - i,
    {
        x = x.add(s[i]);
        proof {
            assert(s@.take(i + 1).drop_last() =~= s@.take(i as int));
        }
        i = i + 1;
    }
    proof {
        assert(s@.take(i as int) =~= s@);
    }
    x
}

pub(crate) fn mean_of(s: &[Binary64]) -> (x: Binary64)
    ensures
        x == mean(s@),
{
    sum(s).div(Binary64::from_u64(s.len() as u64))
}

/// The standard deviation of a sample with this mean.
pub(crate) fn std_dev_of(s: &[Binary64], center: Binary64) -> (x: Binary64)
    requires
        center == mean(s@),
    ensures
        x == std_dev(s@),
{
    let n: usize = s.len();
    let mut squares: Vec<Binary64> = Vec::with_capacity(n);
    let mut i: usize = 0;
    while i < n
        invariant
            n == s@.len(),
            i <= n,
            squares@ == squared_deviations(s@.take(i as int), center),
        decreases n - i,
    {
        let away: Binary64 = s[i].sub(center);
        squares.push(away.mul(away));
        proof {
            assert(squares@ =~= squared_deviations(s@.take(i + 1), center));
        }
        i = i + 1;
    }
    proof {
        assert(s@.take(i as int) =~= s@);
    }
    mean_of(squares.as_slice()).sqrt()
}

/// The simple return on `initial` of each price.
pub fn simple_returns(prices: &[Binary64], initial: Binary64) -> (r: Vec<Binary64>)
    ensures
        r@ == return_series(prices@, initial),
{
    let n: usize = prices.len();
    let mut r: Vec<Binary64> = Vec::with_capacity(n);
    let mut i: usize = 0;
    while i < n
        invariant
            n == prices@.len(),
            i <= n,
            r@ == return_series(prices@.take(i as int), initial),
        decreases n - i,
    {
        r.push(prices[i].sub(initial).div(initial));
        proof {
            assert(r@ =~= return_series(prices@.take(i + 1), initial));
        }
        i = i + 1;
    }
    proof {
        assert(prices@.take(i as int) =~= prices@);
    }
    r
}

fn losses(prices: &[Binary64], initial: Binary64) -> (k: usize)
    ensures
        k == count_below(prices@, initial),
        k <= prices@.len(),
{
    let n: usize = prices.len();
    let mut k: usize = 0;
    let mut i: usize = 0;
    let ghost pred = |x: Binary64| x.lt(initial);
    proof {
        assert(prices@.take(0) =~= Seq::<Binary64>::empty());
        Seq::<Binary64>::empty().lemma_filter_len(pred);
    }
    while i < n
        invariant
            n == prices@.len(),
            i <= n,
            k <= i,
            pred == (|x: Binary64| x.lt(initial)),
            k == prices@.take(i as int).filter(pred).len(),
        decreases n - i,
    {
        proof {
            assert(prices@.take(i + 1) =~= prices@.take(i as int).push(prices@[i as int]));
            prices@.take(i as int).lemma_filter_push(prices@[i as int], pred);
        }
        if prices[i].lt(initial) {
            k = k + 1;
        }
        i = i + 1;
    }
    proof {
        assert(prices@.take(i as int) =~= prices@);
    }
    k
}

/// The member of a sorted sample at a percentile.
pub fn percentile(sorted: &[Binary64], pct: Binary64) -> (x: Binary64)
    requires
        sorted@.len() > 0,
        percentile_index(sorted@.len() as int, pct) < sorted@.len(),
    ensures
        x == sorted@[percentile_index(sorted@.len() as int, pct) as int],
{
    let idx: usize = Binary64::from_u64((sorted.len() - 1) as u64).mul(pct).round_to_usize();
    sorted[idx]
}

/// A whole number of 53 bits or more lies between two multiples of a power of
/// two that are on the grid.
proof fn lemma_leading_bits(m: int, t: nat) -> (parts: (int, nat))
    requires
        t <= 12,
        m >= grid::BINADE,
        m < 2 * grid::BINADE * pow2((12 - t) as nat),
    ensures
        grid::BINADE <= parts.0 < 2 * grid::BINADE,
        parts.1 <= 12 - t,
        parts.0 * pow2(parts.1) <= m < (parts.0 + 1) * pow2(parts.1),
    decreases 12 - t,
{
    lemma2_to64();
    if m < 2 * grid::BINADE {
        assert(m * pow2(0) == m && (m + 1) * pow2(0) == m + 1);
        (m, 0)
    } else {
        if t == 12 {
            assert(2 * grid::BINADE * pow2(0) == 2 * grid::BINADE);
        }
        lemma_pow2_unfold((12 - t) as nat);
        let p = pow2((12 - t - 1) as nat) as int;
        let b = grid::BINADE as int;
        assert(2 * b * (2 * p) == 2 * (2 * b * p)) by (nonlinear_arith);
        let (q, k) = lemma_leading_bits(m / 2, t + 1);
        lemma_pow2_unfold(k + 1);
        let x = pow2(k) as int;
        assert(q * (2 * x) == 2 * (q * x) && (q + 1) * (2 * x) == 2 * ((q + 1) * x))
            by (nonlinear_arith);
        (q, k + 1)
    }
}

/// A percentile of at most 95 stands within the sample, however large.
pub proof fn lemma_percentile_in_range(n: int, k: u64)
    requires
        0 < n <= u64::MAX,
        k <= 95,
    ensures
        percentile_index(n, percent(k)) < n,
{
    let m = n - 1;
    let a = Binary64::from_u64(m as u64);
    let p = percent(k);
    let o = binary64::one();
    lemma_pow2_pos(1074);
    grid::lemma_rounded(m * o, 1);
    grid::lemma_rounded(k * o, 100);
    // percent(k) is at most 31/32
    let c = grid::lemma_multiple_on_grid(31, 1069);
    lemma2_to64();
    lemma_pow2_adds(1069, 5);
    let e = pow2(1069) as int;
    assert(o == 32 * e);
    grid::lemma_rounded_exact(c, 1);
    assert(k * o * 1 <= 31 * e * 100) by (nonlinear_arith)
        requires
            0 <= k <= 95,
            o == 32 * e,
            0 < e,
    ;
    grid::lemma_rounded_monotone(k * o, 100, 31 * e, 1);
    let pu = grid::units(p.magnitude());
    if p.magnitude() < c {
        grid::lemma_units_increase(p.magnitude(), c);
    }
    assert(pu <= 31 * e);
    // a number on the grid, at most m, that bounds the product
    let (w, au) = lemma_room_below(m);
    let wu = grid::units(w);
    assert(a.magnitude() <= au);
    let f = grid::units(au);
    if a.magnitude() < au {
        grid::lemma_units_increase(a.magnitude(), au);
    }
    let x = grid::units(a.magnitude());
    if p.magnitude() > 0 {
        grid::lemma_units_increase(0, p.magnitude());
    }
    grid::lemma_units_small(0);
    if a.magnitude() > 0 {
        grid::lemma_units_increase(0, a.magnitude());
    }
    assert(x * pu <= wu * o) by (nonlinear_arith)
        requires
            0 <= x <= f,
            0 <= pu <= 31 * e,
            31 * f <= 32 * wu,
            o == 32 * e,
            0 < e,
    ;
    assert(o * wu == wu * o && x * pu * o <= (o * wu) * o) by (nonlinear_arith)
        requires
            x * pu <= wu * o,
            0 < o,
    ;
    grid::lemma_rounded_monotone(x * pu, o, o * wu, o);
    grid::lemma_rounded_exact(w, o);
    grid::lemma_rounded(x * pu, o);
    let y = a.mul(p);
    let r = grid::rounded(x * pu, o);
    assert(y.magnitude() == r && !y.negative());
    if r < w {
        grid::lemma_units_increase(r, w);
    }
    assert(grid::units(r) <= m * o);
    vstd::arithmetic::div_mod::lemma_div_is_ordered(
        2 * grid::units(r) + o,
        2 * (m * o) + o,
        2 * o,
    );
    assert(2 * (m * o) + o == m * (2 * o) + o) by (nonlinear_arith);
    vstd::arithmetic::div_mod::lemma_fundamental_div_mod_converse(2 * (m * o) + o, 2 * o, m, o);
}

/// A magnitude `w` of at most `m`, and one that `m` does not round past, with
/// room of a thirty-second between them or none needed.
proof fn lemma_room_below(m: int) -> (parts: (int, int))
    requires
        0 <= m < u64::MAX,
    ensures
        0 <= parts.0 < grid::INF,
        0 <= parts.1 < grid::INF,
        grid::units(parts.0) <= m * binary64::one(),
        Binary64::from_u64(m as u64).magnitude() <= parts.1,
        31 * grid::units(parts.1) <= 32 * grid::units(parts.0),
        0 <= grid::units(parts.0),
{
    let o = binary64::one();
    lemma_pow2_pos(1074);
    grid::lemma_units_small(0);
    grid::lemma_rounded(m * o, 1);
    if m <= 2 * grid::BINADE {
        Binary64::lemma_from_u64_exact(m as u64);
        let c = Binary64::from_u64(m as u64).magnitude();
        assert(0 <= m * o) by (nonlinear_arith)
            requires
                0 <= m,
                0 < o,
        ;
        (c, c)
    } else {
        lemma2_to64();
        let (q, t) = lemma_leading_bits(m, 0);
        let lo = grid::lemma_multiple_on_grid(q, 1074 + t);
        let hi = grid::lemma_multiple_on_grid(q + 1, 1074 + t);
        lemma_pow2_adds(1074, t);
        let x = pow2(t) as int;
        assert(q * (o * x) == (q * x) * o && (q + 1) * (o * x) == ((q + 1) * x) * o)
            by (nonlinear_arith);
        let (u, v) = (q * x, (q + 1) * x);
        assert(u * o <= m * o && m * o <= v * o) by (nonlinear_arith)
            requires
                u <= m <= v,
                0 < o,
        ;
        grid::lemma_rounded_exact(hi, 1);
        grid::lemma_rounded_monotone(m * o, 1, v * o, 1);
        let y = o * x;
        assert(31 * ((q + 1) * y) <= 32 * (q * y) && 0 <= q * y) by (nonlinear_arith)
            requires
                q >= 31,
                y >= 0,
        ;
        (lo, hi)
    }
}

fn tail_length(n: usize, confidence: Binary64) -> (cut: usize)
    requires
        n > 0,
    ensures
        cut == tail_len(n as int, confidence),
        1 <= cut <= n,
{
    let share: Binary64 = Binary64::from_u64(1).sub(confidence);
    let cut: usize = share.mul(Binary64::from_u64(n as u64)).ceil_to_usize();
    if cut > n {
        n
    } else if cut < 1 {
        1
    } else {
        cut
    }
}

/// The statistics of the final prices of a simulation.
pub fn compute_stats(
    final_prices: &[Binary64],
    initial_price: Binary64,
    confidence: Binary64,
) -> (stats: Stats)
    requires
        final_prices@.len() > 0,
        sort::comparable(final_prices@),
        sort::comparable(return_series(final_prices@, initial_price)),
    ensures
        stats == summary(final_prices@, initial_price, confidence),
{
    let count: usize = final_prices.len();
    let n: Binary64 = Binary64::from_u64(count as u64);
    let mean: Binary64 = mean_of(final_prices);
    let std_dev: Binary64 = std_dev_of(final_prices, mean);

    let sorted: Vec<Binary64> = sort::sort(final_prices);
    proof {
        lemma_percentile_in_range(count as int, 50);
        lemma_percentile_in_range(count as int, 5);
        lemma_percentile_in_range(count as int, 25);
        lemma_percentile_in_range(count as int, 75);
        lemma_percentile_in_range(count as int, 95);
    }
    let min: Binary64 = sorted[0];
    let max: Binary64 = sorted[count - 1];
    let median: Binary64 = percentile(sorted.as_slice(), Binary64::ratio(50, 100));
    let p05: Binary64 = percentile(sorted.as_slice(), Binary64::ratio(5, 100));
    let p25: Binary64 = percentile(sorted.as_slice(), Binary64::ratio(25, 100));
    let p75: Binary64 = percentile(sorted.as_slice(), Binary64::ratio(75, 100));
    let p95: Binary64 = percentile(sorted.as_slice(), Binary64::ratio(95, 100));

    let prob_loss: Binary64 = Binary64::from_u64(losses(final_prices, initial_price) as u64).div(n);

    let series: Vec<Binary64> = simple_returns(final_prices, initial_price);
    let worst: Vec<Binary64> = sort::sort(series.as_slice());
    let tail: usize = tail_length(count, confidence);
    let var: Binary64 = worst[tail - 1].neg();
    let cvar: Binary64 = mean_of(vstd::slice::slice_subrange(worst.as_slice(), 0, tail)).neg();
    proof {
        assert(worst@.subrange(0, tail as int) =~= worst@.take(tail as int));
    }

    Stats { mean, std_dev, min, max, median, p05, p25, p75, p95, prob_loss, var, cvar }
}

pub(crate) proof fn lemma_total_sign(s: Seq<Binary64>)
    requires
        s.len() > 0,
        forall|i: int| 0 <= i < s.len() ==> !(#[trigger] s[i]).negative(),
    ensures
        !total(s).negative(),
    decreases s.len(),
{
    let rest = s.drop_last();
    assert(s.last() == s[s.len() - 1]);
    if rest.len() == 0 {
        let start = Binary64 { bits: binary64::SIGN };
        assert(total(rest) == start);
        assert(start.negative() && start.magnitude() == 0);
        let x = s.last();
        grid::lemma_units_small(0);
        if x.magnitude() > 0 {
            grid::lemma_units_increase(0, x.magnitude());
        }
        grid::lemma_rounded(x.value(), 1);
        Binary64::lemma_pack(false, grid::rounded(x.value(), 1));
    } else {
        assert forall|i: int| 0 <= i < rest.len() implies !(#[trigger] rest[i]).negative() by {
            assert(rest[i] == s[i]);
        }
        lemma_total_sign(rest);
        laws::lemma_signs(total(rest), s.last());
    }
}

/// Numbers without minus signs add up to a number, and larger ones to no less.
pub proof fn lemma_total_monotone(a: Seq<Binary64>, b: Seq<Binary64>)
    requires
        a.len() == b.len(),
        forall|i: int|
            0 <= i < a.len() ==> 0 <= (#[trigger] a[i]).rank() <= b[i].rank() <= grid::INF,
    ensures
        !total(a).nan(),
        !total(b).nan(),
        0 <= total(a).rank() <= total(b).rank(),
    decreases a.len(),
{
    if a.len() > 0 {
        let (c, d) = (a.drop_last(), b.drop_last());
        let (x, y) = (a.last(), b.last());
        let (t, u) = (total(c), total(d));
        assert(0 <= a[a.len() - 1].rank() <= b[a.len() - 1].rank() <= grid::INF);
        assert forall|i: int| 0 <= i < c.len() implies 0 <= (#[trigger] c[i]).rank() <= d[i].rank()
            <= grid::INF by {
            assert(c[i] == a[i] && d[i] == b[i]);
        }
        lemma_total_monotone(c, d);
        let zero = Binary64::pack(false, 0);
        Binary64::lemma_pack(false, 0);
        lemma_sum_of_unsigned(t, zero);
        lemma_sum_of_unsigned(t, x);
        lemma_sum_of_unsigned(t, y);
        lemma_sum_of_unsigned(u, y);
        laws::lemma_add_zero(t, zero);
        laws::lemma_add_monotone(t, zero, x);
        laws::lemma_add_monotone(t, x, y);
        laws::lemma_add_commutes(t, y);
        laws::lemma_add_commutes(u, y);
        laws::lemma_add_monotone(y, t, u);
    }
}

proof fn lemma_sum_of_unsigned(a: Binary64, b: Binary64)
    requires
        !a.nan(),
        !b.nan(),
        0 <= a.rank(),
        0 <= b.rank(),
    ensures
        !a.add(b).nan(),
{
    if a.finite() && b.finite() {
        laws::lemma_add_rounds(a, b);
    }
}

/// A standard deviation has no minus sign.
pub proof fn lemma_std_dev_sign(s: Seq<Binary64>)
    requires
        0 < s.len() <= u64::MAX,
    ensures
        !std_dev(s).negative(),
{
    let squares = squared_deviations(s, mean(s));
    assert forall|i: int| 0 <= i < squares.len() implies !(#[trigger] squares[i]).negative() by {
        let x = s[i].sub(mean(s));
        let u = grid::units(x.magnitude());
        lemma_pow2_pos(1074);
        grid::lemma_rounded(u * u, binary64::one());
        Binary64::lemma_pack(false, grid::rounded(u * u, binary64::one()));
    }
    lemma_total_sign(squares);
    let n = Binary64::from_u64(squares.len() as u64);
    grid::lemma_rounded(squares.len() * binary64::one(), 1);
    Binary64::lemma_pack(false, grid::rounded(squares.len() * binary64::one(), 1));
    laws::lemma_signs(total(squares), n);
    laws::lemma_signs(mean(squares), n);
}

/// A higher percentile never stands before a lower one.
proof fn lemma_percentile_index_monotone(n: int, j: u64, k: u64)
    requires
        0 < n <= u64::MAX,
        j <= k <= 95,
    ensures
        percentile_index(n, percent(j)) <= percentile_index(n, percent(k)),
{
    let a = Binary64::from_u64((n - 1) as u64);
    let (p, q) = (percent(j), percent(k));
    let o = binary64::one();
    lemma_pow2_pos(1074);
    grid::lemma_rounded((n - 1) * o, 1);
    grid::lemma_rounded(j * o, 100);
    grid::lemma_rounded(k * o, 100);
    assert(j * o * 100 <= k * o * 100) by (nonlinear_arith)
        requires
            j <= k,
            0 < o,
    ;
    grid::lemma_rounded_monotone(j * o, 100, k * o, 100);
    grid::lemma_units_small(0);
    let x = grid::units(a.magnitude());
    if a.magnitude() > 0 {
        grid::lemma_units_increase(0, a.magnitude());
    }
    let (u, v) = (grid::units(p.magnitude()), grid::units(q.magnitude()));
    if p.magnitude() < q.magnitude() {
        grid::lemma_units_increase(p.magnitude(), q.magnitude());
    }
    assert(x * u * o <= x * v * o) by (nonlinear_arith)
        requires
            0 <= x,
            u <= v,
            0 < o,
    ;
    grid::lemma_rounded_monotone(x * u, o, x * v, o);
    grid::lemma_rounded(x * u, o);
    grid::lemma_rounded(x * v, o);
    let (r, s) = (grid::rounded(x * u, o), grid::rounded(x * v, o));
    lemma_whole_finite((n - 1) as u64);
    lemma_percent_finite(j);
    lemma_percent_finite(k);
    Binary64::lemma_pack(false, r);
    Binary64::lemma_pack(false, s);
    if r < s {
        grid::lemma_units_increase(r, s);
    }
    vstd::arithmetic::div_mod::lemma_div_is_ordered(
        2 * grid::units(r) + o,
        2 * grid::units(s) + o,
        2 * o,
    );
    grid::lemma_units_small(0);
    if r > 0 {
        grid::lemma_units_increase(0, r);
    }
    vstd::arithmetic::div_mod::lemma_div_pos_is_pos(2 * grid::units(r) + o, 2 * o);
    assert(a.mul(p).magnitude() == r && a.mul(q).magnitude() == s);
}

pub(crate) proof fn lemma_percent_finite(k: u64)
    requires
        k <= 100,
    ensures
        percent(k).finite(),
        !percent(k).negative(),
{
    let o = binary64::one();
    lemma_pow2_pos(1074);
    Binary64::lemma_from_u64_exact(1);
    assert(1 * o == o);
    grid::lemma_rounded(o, 1);
    grid::lemma_rounded(k * o, 100);
    assert(k * o * 1 <= o * 100) by (nonlinear_arith)
        requires
            0 <= k <= 100,
            0 < o,
    ;
    grid::lemma_rounded_monotone(k * o, 100, o, 1);
}

/// The percentiles are in order, between the smallest and the largest price.
pub proof fn lemma_percentiles_in_order(
    prices: Seq<Binary64>,
    initial: Binary64,
    confidence: Binary64,
)
    requires
        0 < prices.len() <= u64::MAX,
    ensures
        ({
            let stats = summary(prices, initial, confidence);
            stats.min.rank() <= stats.p05.rank() <= stats.p25.rank() <= stats.median.rank()
                <= stats.p75.rank() <= stats.p95.rank() <= stats.max.rank()
        }),
{
    let n = prices.len() as int;
    sort::lemma_sorted(prices);
    lemma_percentile_in_range(n, 5);
    lemma_percentile_in_range(n, 25);
    lemma_percentile_in_range(n, 50);
    lemma_percentile_in_range(n, 75);
    lemma_percentile_in_range(n, 95);
    lemma_percentile_index_monotone(n, 5, 25);
    lemma_percentile_index_monotone(n, 25, 50);
    lemma_percentile_index_monotone(n, 50, 75);
    lemma_percentile_index_monotone(n, 75, 95);
}

/// Every price lies between the smallest and the largest one, and these, the
/// median and the other percentiles are prices that occurred.
pub proof fn lemma_order_statistics_are_prices(
    prices: Seq<Binary64>,
    initial: Binary64,
    confidence: Binary64,
)
    requires
        0 < prices.len() <= u64::MAX,
    ensures
        ({
            let stats = summary(prices, initial, confidence);
            &&& forall|i: int|
                0 <= i < prices.len() ==> stats.min.rank() <= (#[trigger] prices[i]).rank()
                    <= stats.max.rank()
            &&& prices.contains(stats.min)
            &&& prices.contains(stats.max)
            &&& prices.contains(stats.median)
            &&& prices.contains(stats.p05)
            &&& prices.contains(stats.p25)
            &&& prices.contains(stats.p75)
            &&& prices.contains(stats.p95)
        }),
{
    let n = prices.len() as int;
    let sorted = sort::sorted(prices);
    let stats = summary(prices, initial, confidence);
    sort::lemma_sorted(prices);
    assert forall|i: int| 0 <= i < prices.len() implies stats.min.rank()
        <= (#[trigger] prices[i]).rank() <= stats.max.rank() by {
        sort::lemma_sorted_members(prices, prices[i]);
        let j = choose|j: int| 0 <= j < sorted.len() && sorted[j] == prices[i];
        assert(sorted[j] == prices[i]);
    }
    assert forall|i: int| 0 <= i < n implies prices.contains(#[trigger] sorted[i]) by {
        sort::lemma_sorted_members(prices, sorted[i]);
        assert(sorted.contains(sorted[i]));
    }
    lemma_percentile_in_range(n, 5);
    lemma_percentile_in_range(n, 25);
    lemma_percentile_in_range(n, 50);
    lemma_percentile_in_range(n, 75);
    lemma_percentile_in_range(n, 95);
}

/// The probability of a loss lies between zero and one.
pub proof fn lemma_prob_loss_is_a_share(
    prices: Seq<Binary64>,
    initial: Binary64,
    confidence: Binary64,
)
    requires
        0 < prices.len() <= u64::MAX,
    ensures
        ({
            let share = summary(prices, initial, confidence).prob_loss;
            !share.nan() && 0 <= share.rank() <= Binary64::from_u64(1).rank()
        }),
{
    let n = prices.len() as u64;
    let pred = |x: Binary64| x.lt(initial);
    prices.lemma_filter_len(pred);
    let k = count_below(prices, initial) as u64;
    let (a, b) = (Binary64::from_u64(k), Binary64::from_u64(n));
    let one = Binary64::from_u64(1);
    let o = binary64::one();
    lemma_pow2_pos(1074);
    Binary64::lemma_from_u64_exact(1);
    assert(1 * o == o);
    grid::lemma_rounded(k * o, 1);
    grid::lemma_rounded(n * o, 1);
    grid::lemma_rounded(o, 1);
    assert(k * o <= n * o && o <= n * o) by (nonlinear_arith)
        requires
            0 <= k <= n,
            1 <= n,
            0 < o,
    ;
    grid::lemma_rounded_monotone(k * o, 1, n * o, 1);
    grid::lemma_rounded_monotone(o, 1, n * o, 1);
    lemma_whole_finite(n);
    grid::lemma_units_small(0);
    assert(one.magnitude() > 0);
    let (x, y) = (grid::units(a.magnitude()), grid::units(b.magnitude()));
    grid::lemma_units_increase(0, b.magnitude());
    if a.magnitude() > 0 {
        grid::lemma_units_increase(0, a.magnitude());
    }
    if a.magnitude() < b.magnitude() {
        grid::lemma_units_increase(a.magnitude(), b.magnitude());
    }
    assert(x * o * 1 <= o * y) by (nonlinear_arith)
        requires
            x <= y,
            0 < o,
    ;
    grid::lemma_rounded_monotone(x * o, y, o, 1);
    grid::lemma_rounded(x * o, y);
    Binary64::lemma_pack(false, grid::rounded(x * o, y));
}

/// A whole number of 64 bits is in range.
pub proof fn lemma_whole_finite(n: u64)
    ensures
        Binary64::from_u64(n).finite(),
{
    let o = binary64::one();
    lemma_pow2_pos(1074);
    lemma2_to64();
    lemma_pow2_adds(1074, 64);
    let c = grid::lemma_multiple_on_grid(1, 1138);
    let big = pow2(1138) as int;
    assert(1 * big == big);
    assert(n * o <= big) by (nonlinear_arith)
        requires
            n <= 0x1_0000_0000_0000_0000,
            big == o * 0x1_0000_0000_0000_0000,
            0 < o,
    ;
    grid::lemma_rounded_monotone(n * o, 1, big, 1);
    grid::lemma_rounded_exact(c, 1);
    grid::lemma_rounded(n * o, 1);
}

/// The value at risk cuts the tail off: the returns in the tail are no better
/// than the loss it names, and all others no worse.
pub proof fn lemma_var_cuts_tail(prices: Seq<Binary64>, initial: Binary64, confidence: Binary64)
    requires
        0 < prices.len() <= u64::MAX,
    ensures
        ({
            let worst = sort::sorted(return_series(prices, initial));
            let tail = tail_len(prices.len() as int, confidence);
            let var = summary(prices, initial, confidence).var;
            &&& 1 <= tail <= prices.len()
            &&& worst.len() == prices.len()
            &&& forall|i: int| 0 <= i < tail ==> (#[trigger] worst[i]).rank() <= -var.rank()
            &&& forall|i: int|
                tail <= i < worst.len() ==> -var.rank() <= (#[trigger] worst[i]).rank()
        }),
{
    let series = return_series(prices, initial);
    sort::lemma_sorted(series);
    let worst = sort::sorted(series);
    let tail = tail_len(prices.len() as int, confidence);
    let x = worst[tail - 1];
    Binary64::lemma_pack(!x.negative(), x.magnitude());
}

/// More confidence never makes the tail longer.
pub proof fn lemma_tail_shrinks(n: int, c: Binary64, d: Binary64)
    requires
        0 < n <= u64::MAX,
        !c.nan(),
        !d.nan(),
        c.rank() <= d.rank(),
    ensures
        tail_len(n, d) <= tail_len(n, c),
{
    let one = Binary64::from_u64(1);
    let len = Binary64::from_u64(n as u64);
    let o = binary64::one();
    Binary64::lemma_from_u64_exact(1);
    lemma_whole_finite(n as u64);
    grid::lemma_rounded(n * o, 1);
    grid::lemma_units_small(0);
    lemma_pow2_pos(1074);
    assert(!len.zero()) by {
        assert(1 * o == o);
        assert(o <= n * o) by (nonlinear_arith)
            requires
                1 <= n,
                0 < o,
        ;
        grid::lemma_rounded_monotone(o, 1, n * o, 1);
        grid::lemma_rounded(o, 1);
        assert(one.magnitude() == grid::rounded(o, 1));
        assert(grid::units(one.magnitude()) == o);
        assert(len.magnitude() == grid::rounded(n * o, 1));
    }
    Binary64::lemma_pack(!c.negative(), c.magnitude());
    Binary64::lemma_pack(!d.negative(), d.magnitude());
    if c.finite() {
        laws::lemma_add_rounds(one, c.neg());
    }
    if d.finite() {
        laws::lemma_add_rounds(one, d.neg());
    }
    laws::lemma_add_monotone(one, d.neg(), c.neg());
    let (x, y) = (one.sub(d), one.sub(c));
    laws::lemma_mul_monotone(x, y, len);
    laws::lemma_ceil_monotone(x.mul(len), y.mul(len));
}

/// More confidence never lowers the value at risk.
pub proof fn lemma_var_grows_with_confidence(
    prices: Seq<Binary64>,
    initial: Binary64,
    c: Binary64,
    d: Binary64,
)
    requires
        0 < prices.len() <= u64::MAX,
        !c.nan(),
        !d.nan(),
        c.rank() <= d.rank(),
    ensures
        summary(prices, initial, c).var.rank() <= summary(prices, initial, d).var.rank(),
{
    let n = prices.len() as int;
    lemma_tail_shrinks(n, c, d);
    lemma_var_cuts_tail(prices, initial, c);
    lemma_var_cuts_tail(prices, initial, d);
    let series = return_series(prices, initial);
    sort::lemma_sorted(series);
    let worst = sort::sorted(series);
    let (x, y) = (worst[tail_len(n, c) - 1], worst[tail_len(n, d) - 1]);
    Binary64::lemma_pack(!x.negative(), x.magnitude());
    Binary64::lemma_pack(!y.negative(), y.magnitude());
}

/// A percentile of at most one stands within a sample whose length is exact as
/// a number.
pub proof fn lemma_percentile_within(n: int, pct: Binary64)
    requires
        0 < n <= 2 * grid::BINADE + 1,
        !pct.nan(),
        pct.rank() <= Binary64::from_u64(1).rank(),
    ensures
        percentile_index(n, pct) < n,
{
    let m = n - 1;
    let a = Binary64::from_u64(m as u64);
    let one = Binary64::from_u64(1);
    let o = binary64::one();
    lemma_pow2_pos(1074);
    Binary64::lemma_from_u64_exact(m as u64);
    Binary64::lemma_from_u64_exact(1);
    assert(1 * o == o);
    grid::lemma_units_small(0);
    if a.magnitude() > 0 {
        grid::lemma_units_increase(0, a.magnitude());
    }
    let (x, u) = (grid::units(a.magnitude()), grid::units(pct.magnitude()));
    grid::lemma_rounded(x * u, o);
    Binary64::lemma_pack(pct.negative(), grid::rounded(x * u, o));
    Binary64::lemma_pack(pct.negative(), grid::INF as int);
    if !pct.negative() {
        if pct.magnitude() < one.magnitude() {
            grid::lemma_units_increase(pct.magnitude(), one.magnitude());
        }
        assert(x * u * o <= (o * x) * o) by (nonlinear_arith)
            requires
                0 <= x,
                u <= o,
                0 < o,
        ;
        grid::lemma_rounded_monotone(x * u, o, o * x, o);
        grid::lemma_rounded_exact(a.magnitude(), o);
        let r = grid::rounded(x * u, o);
        if r < a.magnitude() {
            grid::lemma_units_increase(r, a.magnitude());
        }
        vstd::arithmetic::div_mod::lemma_div_is_ordered(
            2 * grid::units(r) + o,
            2 * (m * o) + o,
            2 * o,
        );
        assert(2 * (m * o) + o == m * (2 * o) + o) by (nonlinear_arith);
        vstd::arithmetic::div_mod::lemma_fundamental_div_mod_converse(
            2 * (m * o) + o,
            2 * o,
            m,
            o,
        );
    }
}

/// Where the prices are numbers and the initial price is neither zero nor
/// infinite, the returns can be compared.
pub proof fn lemma_returns_comparable(prices: Seq<Binary64>, initial: Binary64)
    requires
        forall|i: int| 0 <= i < prices.len() ==> !(#[trigger] prices[i]).nan(),
        initial.finite(),
        !initial.zero(),
    ensures
        sort::comparable(return_series(prices, initial)),
{
    let series = return_series(prices, initial);
    Binary64::lemma_pack(!initial.negative(), initial.magnitude());
    assert forall|i: int| 0 <= i < series.len() implies !(#[trigger] series[i]).nan() by {
        let gain = prices[i].sub(initial);
        if prices[i].finite() {
            laws::lemma_add_rounds(prices[i], initial.neg());
        }
        assert(!gain.nan());
        let (x, y) = (grid::units(gain.magnitude()), grid::units(initial.magnitude()));
        grid::lemma_units_small(0);
        grid::lemma_units_increase(0, initial.magnitude());
        grid::lemma_rounded(x * binary64::one(), y);
        Binary64::lemma_pack(
            gain.negative() != initial.negative(),
            grid::rounded(x * binary64::one(), y),
        );
        Binary64::lemma_pack(gain.negative() != initial.negative(), grid::INF as int);
    }
}

} // verus!
