//! The order in which prices come makes no difference to their statistics.
use crate::binary64;
use crate::binary64::Binary64;
use crate::grid;
use crate::sort;
use crate::stats;
use vstd::arithmetic::power2::*;
use vstd::prelude::*;
use vstd::seq_lib::*;

verus! {

/// The same members, in whatever order.
pub open spec fn shuffled<A>(a: Seq<A>, b: Seq<A>) -> bool {
    a.to_multiset() == b.to_multiset()
}

/// The two are the same, or zeros of whatever sign.
pub open spec fn alike(a: Binary64, b: Binary64) -> bool {
    a == b || (a.zero() && b.zero())
}

/// Where a member of one order stands in the other.
pub(crate) proof fn lemma_place<A>(a: Seq<A>, b: Seq<A>) -> (i: int)
    requires
        shuffled(a, b),
        a.len() > 0,
    ensures
        0 <= i < b.len(),
        b[i] == a.last(),
        shuffled(a.drop_last(), b.remove(i)),
{
    broadcast use group_to_multiset_ensures;

    assert(a.contains(a.last()));
    assert(a.to_multiset().count(a.last()) > 0);
    assert(b.contains(a.last()));
    let i = choose|i: int| 0 <= i < b.len() && b[i] == a.last();
    assert(a.drop_last() =~= a.remove(a.len() - 1));
    i
}

/// A selection from both orders has the same length.
pub proof fn lemma_shuffled_filter<A>(a: Seq<A>, b: Seq<A>, p: spec_fn(A) -> bool)
    requires
        shuffled(a, b),
    ensures
        a.filter(p).len() == b.filter(p).len(),
        a.len() == b.len(),
    decreases a.len(),
{
    broadcast use group_to_multiset_ensures;

    assert(a.to_multiset().len() == b.to_multiset().len());
    if a.len() == 0 {
        assert(a =~= b);
    } else {
        let i = lemma_place(a, b);
        let (rest, x) = (a.drop_last(), a.last());
        lemma_shuffled_filter(rest, b.remove(i), p);
        let (u, v) = (b.take(i), b.skip(i + 1));
        assert(a =~= rest.push(x));
        assert(b.remove(i) =~= u + v);
        assert(b =~= u.push(x) + v);
        rest.lemma_filter_push(x, p);
        u.lemma_filter_push(x, p);
        Seq::filter_distributes_over_add(u, v, p);
        Seq::filter_distributes_over_add(u.push(x), v, p);
    }
}

/// Ordered sequences with as many members of each rank go through the same ranks.
proof fn lemma_same_ranks(a: Seq<Binary64>, b: Seq<Binary64>)
    requires
        sort::ordered(a),
        sort::ordered(b),
        a.len() == b.len(),
        forall|rank: int|
            (#[trigger] sort::of_rank(a, rank)).len() == sort::of_rank(b, rank).len(),
    ensures
        forall|i: int| 0 <= i < a.len() ==> alike(#[trigger] a[i], b[i]),
    decreases a.len(),
{
    if a.len() > 0 {
        let (c, x) = (a.drop_last(), a.last());
        let (d, y) = (b.drop_last(), b.last());
        lemma_last_rank(a, b);
        lemma_last_rank(b, a);
        assert(x.rank() == y.rank());
        assert(a =~= c.push(x) && b =~= d.push(y));
        assert forall|rank: int|
            (#[trigger] sort::of_rank(c, rank)).len() == sort::of_rank(d, rank).len() by {
            sort::lemma_of_rank_push(c, x, rank);
            sort::lemma_of_rank_push(d, y, rank);
            assert(sort::of_rank(a, rank).len() == sort::of_rank(b, rank).len());
        }
        lemma_same_ranks(c, d);
        assert forall|i: int| 0 <= i < a.len() implies alike(#[trigger] a[i], b[i]) by {
            if i < c.len() {
                assert(alike(c[i], d[i]));
            }
        }
    }
}

/// The last of one sequence does not rank above the last of the other.
proof fn lemma_last_rank(a: Seq<Binary64>, b: Seq<Binary64>)
    requires
        sort::ordered(b),
        a.len() == b.len() > 0,
        sort::of_rank(a, a.last().rank()).len() == sort::of_rank(b, a.last().rank()).len(),
    ensures
        a.last().rank() <= b.last().rank(),
{
    let rank = a.last().rank();
    assert(a =~= a.drop_last().push(a.last()));
    sort::lemma_of_rank_push(a.drop_last(), a.last(), rank);
    if forall|i: int| 0 <= i < b.len() ==> b[i].rank() != rank {
        sort::lemma_of_rank_absent(b, rank);
    } else {
        let i = choose|i: int| 0 <= i < b.len() && b[i].rank() == rank;
        assert(b[i].rank() <= b[b.len() - 1].rank());
    }
}

/// What `f` makes of the members, counted by rank, is a selection of the members.
proof fn lemma_ranks_of_image(
    s: Seq<Binary64>,
    f: spec_fn(Binary64) -> Binary64,
    p: spec_fn(Binary64) -> bool,
    rank: int,
)
    requires
        forall|x: Binary64| #[trigger] p(x) == (f(x).rank() == rank),
    ensures
        sort::of_rank(s.map_values(f), rank).len() == s.filter(p).len(),
    decreases s.len(),
{
    if s.len() == 0 {
        assert(s.map_values(f) =~= Seq::<Binary64>::empty());
        assert(s =~= Seq::<Binary64>::empty());
        sort::lemma_of_rank_empty(rank);
        s.lemma_filter_len(p);
    } else {
        let (rest, x) = (s.drop_last(), s.last());
        lemma_ranks_of_image(rest, f, p, rank);
        assert(s =~= rest.push(x));
        assert(s.map_values(f) =~= rest.map_values(f).push(f(x)));
        sort::lemma_of_rank_push(rest.map_values(f), f(x), rank);
        rest.lemma_filter_push(x, p);
        assert(p(x) == (f(x).rank() == rank));
    }
}

/// Sorted, what `f` makes of either order is alike, member by member.
pub proof fn lemma_sorted_images(
    a: Seq<Binary64>,
    b: Seq<Binary64>,
    f: spec_fn(Binary64) -> Binary64,
)
    requires
        shuffled(a, b),
    ensures
        a.len() == b.len(),
        forall|i: int|
            0 <= i < a.len() ==> alike(
                #[trigger] sort::sorted(a.map_values(f))[i],
                sort::sorted(b.map_values(f))[i],
            ),
{
    let (c, d) = (a.map_values(f), b.map_values(f));
    lemma_shuffled_filter(a, b, |x: Binary64| true);
    sort::lemma_sorted(c);
    sort::lemma_sorted(d);
    assert forall|rank: int|
        (#[trigger] sort::of_rank(sort::sorted(c), rank)).len() == sort::of_rank(
            sort::sorted(d),
            rank,
        ).len() by {
        let p = |x: Binary64| f(x).rank() == rank;
        lemma_ranks_of_image(a, f, p, rank);
        lemma_ranks_of_image(b, f, p, rank);
        lemma_shuffled_filter(a, b, p);
        assert(sort::of_rank(sort::sorted(c), rank) == sort::of_rank(c, rank));
        assert(sort::of_rank(sort::sorted(d), rank) == sort::of_rank(d, rank));
    }
    lemma_same_ranks(sort::sorted(c), sort::sorted(d));
}

/// Sums of alike numbers are alike.
proof fn lemma_add_alike(a: Binary64, b: Binary64, c: Binary64, d: Binary64)
    requires
        alike(a, b),
        alike(c, d),
    ensures
        alike(a.add(c), b.add(d)),
{
    grid::lemma_units_small(0);
    assert(a.value() == b.value() && c.value() == d.value());
    Binary64::lemma_pack(true, 0);
    Binary64::lemma_pack(false, 0);
}

/// Totals of alike numbers are alike.
proof fn lemma_total_alike(a: Seq<Binary64>, b: Seq<Binary64>)
    requires
        a.len() == b.len(),
        forall|i: int| 0 <= i < a.len() ==> alike(#[trigger] a[i], b[i]),
    ensures
        alike(stats::total(a), stats::total(b)),
    decreases a.len(),
{
    if a.len() > 0 {
        let (c, d) = (a.drop_last(), b.drop_last());
        assert forall|i: int| 0 <= i < c.len() implies alike(#[trigger] c[i], d[i]) by {
            assert(alike(a[i], b[i]));
        }
        lemma_total_alike(c, d);
        assert(alike(a[a.len() - 1], b[b.len() - 1]));
        lemma_add_alike(stats::total(c), stats::total(d), a.last(), b.last());
    }
}

/// Quotients of alike numbers are alike.
proof fn lemma_div_alike(a: Binary64, b: Binary64, y: Binary64)
    requires
        alike(a, b),
    ensures
        alike(a.div(y), b.div(y)),
{
    grid::lemma_units_small(0);
    Binary64::lemma_pack(true, 0);
    Binary64::lemma_pack(false, 0);
    if a.zero() && y.finite() && !y.zero() {
        let v = grid::units(y.magnitude());
        grid::lemma_units_increase(0, y.magnitude());
        assert(0 * binary64::one() == 0 && v * 0 == 0) by (nonlinear_arith);
        grid::lemma_rounded_exact(0, v);
    }
}

proof fn lemma_neg_alike(a: Binary64, b: Binary64)
    requires
        alike(a, b),
    ensures
        alike(a.neg(), b.neg()),
{
    Binary64::lemma_pack(!a.negative(), a.magnitude());
    Binary64::lemma_pack(!b.negative(), b.magnitude());
}

/// The order of the prices makes no difference to the smallest and the largest
/// one, the median and the other percentiles, the probability of a loss, the
/// value at risk and the expected shortfall: for the same prices in another order
/// each of them compares equal. The sign of a zero may be another, since zeros of
/// either sign keep their order when sorted.
pub proof fn lemma_order_is_irrelevant(
    a: Seq<Binary64>,
    b: Seq<Binary64>,
    initial: Binary64,
    confidence: Binary64,
)
    requires
        shuffled(a, b),
        0 < a.len() <= u64::MAX,
    ensures
        ({
            let (s, t) = (
                stats::summary(a, initial, confidence),
                stats::summary(b, initial, confidence),
            );
            &&& a.len() == b.len()
            &&& alike(s.min, t.min)
            &&& alike(s.max, t.max)
            &&& alike(s.median, t.median)
            &&& alike(s.p05, t.p05)
            &&& alike(s.p25, t.p25)
            &&& alike(s.p75, t.p75)
            &&& alike(s.p95, t.p95)
            &&& s.prob_loss == t.prob_loss
            &&& alike(s.var, t.var)
            &&& alike(s.cvar, t.cvar)
        }),
{
    let n = a.len() as int;
    lemma_shuffled_filter(a, b, |x: Binary64| x.lt(initial));
    let same = |x: Binary64| x;
    assert(a.map_values(same) =~= a && b.map_values(same) =~= b);
    lemma_sorted_images(a, b, same);
    let (u, v) = (sort::sorted(a), sort::sorted(b));
    sort::lemma_sorted(a);
    sort::lemma_sorted(b);
    stats::lemma_percentile_in_range(n, 5);
    stats::lemma_percentile_in_range(n, 25);
    stats::lemma_percentile_in_range(n, 50);
    stats::lemma_percentile_in_range(n, 75);
    stats::lemma_percentile_in_range(n, 95);
    assert forall|i: int| 0 <= i < n implies alike(#[trigger] u[i], v[i]) by {
        assert(alike(sort::sorted(a.map_values(same))[i], sort::sorted(b.map_values(same))[i]));
    }
    let gain = |p: Binary64| p.sub(initial).div(initial);
    lemma_sorted_images(a, b, gain);
    let (x, y) = (stats::return_series(a, initial), stats::return_series(b, initial));
    let (w, z) = (sort::sorted(x), sort::sorted(y));
    sort::lemma_sorted(x);
    sort::lemma_sorted(y);
    assert(x =~= a.map_values(gain) && y =~= b.map_values(gain));
    let tail = stats::tail_len(n, confidence);
    assert(1 <= tail <= n);
    assert(alike(w[tail - 1], z[tail - 1]));
    lemma_neg_alike(w[tail - 1], z[tail - 1]);
    let (f, g) = (w.take(tail), z.take(tail));
    assert forall|i: int| 0 <= i < f.len() implies alike(#[trigger] f[i], g[i]) by {
        assert(alike(w[i], z[i]));
    }
    lemma_total_alike(f, g);
    lemma_div_alike(stats::total(f), stats::total(g), Binary64::from_u64(tail as u64));
    lemma_neg_alike(stats::mean(f), stats::mean(g));
}

} // verus!
