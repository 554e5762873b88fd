//! A stable sort of numbers.
use crate::binary64::Binary64;
use vstd::prelude::*;
use vstd::seq_lib::*;

verus! {

/// No number comes after a larger one.
pub open spec fn ordered(s: Seq<Binary64>) -> bool {
    forall|i: int, j: int| 0 <= i < j < s.len() ==> s[i].rank() <= s[j].rank()
}

/// The members of `s` that compare as `rank` does, in their order in `s`.
pub open spec fn of_rank(s: Seq<Binary64>, rank: int) -> Seq<Binary64> {
    s.filter(|x: Binary64| x.rank() == rank)
}

/// `r` holds the members of `s` in order, and equal ones in the order they had.
pub open spec fn stably_sorts(s: Seq<Binary64>, r: Seq<Binary64>) -> bool {
    &&& ordered(r)
    &&& forall|rank: int| #[trigger] of_rank(r, rank) == of_rank(s, rank)
}

/// `s`, stably sorted.
pub open spec fn sorted(s: Seq<Binary64>) -> Seq<Binary64> {
    choose|r: Seq<Binary64>| stably_sorts(s, r)
}

/// All members compare with each other, or there is nothing to compare.
pub open spec fn comparable(s: Seq<Binary64>) -> bool {
    s.len() <= 1 || forall|i: int| 0 <= i < s.len() ==> !(#[trigger] s[i]).nan()
}

pub(crate) proof fn lemma_of_rank_push(s: Seq<Binary64>, x: Binary64, rank: int)
    ensures
        of_rank(s.push(x), rank) == if x.rank() == rank {
            of_rank(s, rank).push(x)
        } else {
            of_rank(s, rank)
        },
{
    s.lemma_filter_push(x, |y: Binary64| y.rank() == rank);
}

proof fn lemma_of_rank_add(a: Seq<Binary64>, b: Seq<Binary64>, rank: int)
    ensures
        of_rank(a + b, rank) == of_rank(a, rank) + of_rank(b, rank),
{
    Seq::filter_distributes_over_add(a, b, |y: Binary64| y.rank() == rank);
}

pub(crate) proof fn lemma_of_rank_absent(s: Seq<Binary64>, rank: int)
    requires
        forall|i: int| 0 <= i < s.len() ==> s[i].rank() != rank,
    ensures
        of_rank(s, rank) == Seq::<Binary64>::empty(),
    decreases s.len(),
{
    if s.len() > 0 {
        lemma_of_rank_absent(s.drop_last(), rank);
        lemma_of_rank_push(s.drop_last(), s.last(), rank);
        assert(s.drop_last().push(s.last()) =~= s);
    } else {
        assert(s =~= Seq::<Binary64>::empty());
        lemma_of_rank_empty(rank);
    }
}

pub(crate) proof fn lemma_of_rank_empty(rank: int)
    ensures
        of_rank(Seq::<Binary64>::empty(), rank) == Seq::<Binary64>::empty(),
{
    let p = |y: Binary64| y.rank() == rank;
    Seq::<Binary64>::empty().lemma_filter_len(p);
    assert(of_rank(Seq::<Binary64>::empty(), rank) =~= Seq::<Binary64>::empty());
}

/// A member of an ordered sequence is found among those of its rank.
proof fn lemma_last_of_rank(a: Seq<Binary64>, b: Seq<Binary64>)
    requires
        a.len() > 0,
        of_rank(a, a.last().rank()) == of_rank(b, a.last().rank()),
    ensures
        exists|i: int| 0 <= i < b.len() && b[i].rank() == a.last().rank(),
{
    let rank = a.last().rank();
    lemma_of_rank_push(a.drop_last(), a.last(), rank);
    assert(a.drop_last().push(a.last()) =~= a);
    if forall|i: int| 0 <= i < b.len() ==> b[i].rank() != rank {
        lemma_of_rank_absent(b, rank);
        assert(of_rank(a, rank).len() > 0);
    }
}

/// There is only one way to sort stably.
pub proof fn lemma_stable_sort_unique(a: Seq<Binary64>, b: Seq<Binary64>)
    requires
        ordered(a),
        ordered(b),
        forall|rank: int| #[trigger] of_rank(a, rank) == of_rank(b, rank),
    ensures
        a == b,
    decreases a.len(),
{
    if a.len() == 0 {
        if b.len() > 0 {
            lemma_last_of_rank(b, a);
        }
        assert(a =~= b);
    } else {
        lemma_last_of_rank(a, b);
        lemma_last_of_rank(b, a);
        let (x, y) = (a.last(), b.last());
        let (c, d) = (a.drop_last(), b.drop_last());
        assert(a =~= c.push(x));
        assert(b =~= d.push(y));
        assert(x.rank() == y.rank());
        lemma_of_rank_push(c, x, x.rank());
        lemma_of_rank_push(d, y, x.rank());
        assert(of_rank(c, x.rank()).push(x).last() == of_rank(d, x.rank()).push(y).last());
        assert forall|rank: int| #[trigger] of_rank(c, rank) == of_rank(d, rank) by {
            lemma_of_rank_push(c, x, rank);
            lemma_of_rank_push(d, y, rank);
            assert(of_rank(a, rank) == of_rank(b, rank));
            if rank == x.rank() {
                assert(of_rank(a, rank).drop_last() =~= of_rank(c, rank));
                assert(of_rank(b, rank).drop_last() =~= of_rank(d, rank));
            }
        }
        lemma_stable_sort_unique(c, d);
    }
}

/// Merges two ordered sequences; of equal members those on the left come first.
fn merge(left: &Vec<Binary64>, right: &Vec<Binary64>) -> (r: Vec<Binary64>)
    requires
        ordered(left@),
        ordered(right@),
    ensures
        stably_sorts(left@ + right@, r@),
        r@.len() == left@.len() + right@.len(),
{
    let mut out: Vec<Binary64> = Vec::new();
    let mut i: usize = 0;
    let mut j: usize = 0;
    proof {
        assert forall|rank: int| #[trigger]
            of_rank(out@, rank) == of_rank(left@.take(0), rank) + of_rank(right@.take(0), rank) by {
            lemma_of_rank_empty(rank);
            assert(left@.take(0) =~= Seq::<Binary64>::empty());
            assert(right@.take(0) =~= Seq::<Binary64>::empty());
            assert(out@ =~= Seq::<Binary64>::empty());
            assert(of_rank(out@, rank) =~= Seq::<Binary64>::empty() + Seq::<Binary64>::empty());
        }
    }
    while i < left.len() || j < right.len()
        invariant
            ordered(left@),
            ordered(right@),
            i <= left@.len(),
            j <= right@.len(),
            out@.len() == i + j,
            ordered(out@),
            forall|a: int, b: int|
                0 <= a < out@.len() && i <= b < left@.len() ==> out@[a].rank() <= left@[b].rank(),
            forall|a: int, b: int|
                0 <= a < out@.len() && j <= b < right@.len() ==> out@[a].rank() <= right@[b].rank(),
            forall|a: int, b: int|
                0 <= a < j && i <= b < left@.len() ==> right@[a].rank() < left@[b].rank(),
            forall|rank: int| #[trigger]
                of_rank(out@, rank) == of_rank(left@.take(i as int), rank) + of_rank(
                    right@.take(j as int),
                    rank,
                ),
        decreases left@.len() - i + right@.len() - j,
    {
        let ghost before = out@;
        let from_left: bool = if i == left.len() {
            false
        } else if j == right.len() {
            true
        } else {
            left[i].key() <= right[j].key()
        };
        if from_left {
            let x: Binary64 = left[i];
            out.push(x);
            proof {
                assert(left@.take(i + 1) =~= left@.take(i as int).push(x));
                assert forall|rank: int| #[trigger]
                    of_rank(out@, rank) == of_rank(left@.take(i + 1), rank) + of_rank(
                        right@.take(j as int),
                        rank,
                    ) by {
                    lemma_of_rank_push(before, x, rank);
                    lemma_of_rank_push(left@.take(i as int), x, rank);
                    assert(of_rank(before, rank) == of_rank(left@.take(i as int), rank) + of_rank(
                        right@.take(j as int),
                        rank,
                    ));
                    if x.rank() == rank {
                        lemma_of_rank_absent(right@.take(j as int), rank);
                        assert(of_rank(out@, rank) =~= of_rank(left@.take(i + 1), rank) + of_rank(
                            right@.take(j as int),
                            rank,
                        ));
                    }
                }
            }
            i = i + 1;
        } else {
            let x: Binary64 = right[j];
            out.push(x);
            proof {
                assert(right@.take(j + 1) =~= right@.take(j as int).push(x));
                assert forall|rank: int| #[trigger]
                    of_rank(out@, rank) == of_rank(left@.take(i as int), rank) + of_rank(
                        right@.take(j + 1),
                        rank,
                    ) by {
                    lemma_of_rank_push(before, x, rank);
                    lemma_of_rank_push(right@.take(j as int), x, rank);
                    assert(of_rank(before, rank) == of_rank(left@.take(i as int), rank) + of_rank(
                        right@.take(j as int),
                        rank,
                    ));
                    assert(of_rank(out@, rank) =~= of_rank(left@.take(i as int), rank) + of_rank(
                        right@.take(j + 1),
                        rank,
                    ));
                }
            }
            j = j + 1;
        }
    }
    proof {
        assert(left@.take(i as int) =~= left@);
        assert(right@.take(j as int) =~= right@);
        assert forall|rank: int| #[trigger]
            of_rank(out@, rank) == of_rank(left@ + right@, rank) by {
            lemma_of_rank_add(left@, right@, rank);
        }
    }
    out
}

fn merge_sort(s: &[Binary64]) -> (r: Vec<Binary64>)
    ensures
        stably_sorts(s@, r@),
        r@.len() == s@.len(),
    decreases s@.len(),
{
    let n: usize = s.len();
    if n <= 1 {
        let mut r: Vec<Binary64> = Vec::new();
        if n == 1 {
            r.push(s[0]);
        }
        assert(r@ =~= s@);
        r
    } else {
        let mid: usize = n / 2;
        let left: Vec<Binary64> = merge_sort(vstd::slice::slice_subrange(s, 0, mid));
        let right: Vec<Binary64> = merge_sort(vstd::slice::slice_subrange(s, mid, n));
        let r: Vec<Binary64> = merge(&left, &right);
        proof {
            let (a, b) = (s@.subrange(0, mid as int), s@.subrange(mid as int, n as int));
            assert(a + b =~= s@);
            assert forall|rank: int| #[trigger] of_rank(r@, rank) == of_rank(s@, rank) by {
                lemma_of_rank_add(left@, right@, rank);
                lemma_of_rank_add(a, b, rank);
                assert(of_rank(left@, rank) == of_rank(a, rank));
                assert(of_rank(right@, rank) == of_rank(b, rank));
            }
        }
        r
    }
}

/// Whether `s` can be sorted.
pub fn is_comparable(s: &[Binary64]) -> (b: bool)
    ensures
        b == comparable(s@),
{
    let n: usize = s.len();
    if n <= 1 {
        return true;
    }
    let mut i: usize = 0;
    while i < n
        invariant
            1 < n == s@.len(),
            i <= n,
            forall|j: int| 0 <= j < i ==> !(#[trigger] s@[j]).nan(),
        decreases n - i,
    {
        if s[i].is_nan() {
            return false;
        }
        i = i + 1;
    }
    true
}

/// The members of `s` in order, equal ones in the order they had.
pub fn sort(s: &[Binary64]) -> (r: Vec<Binary64>)
    requires
        comparable(s@),
    ensures
        r@ == sorted(s@),
        stably_sorts(s@, r@),
        r@.len() == s@.len(),
{
    let r: Vec<Binary64> = merge_sort(s);
    proof {
        let c = sorted(s@);
        assert forall|rank: int| #[trigger] of_rank(c, rank) == of_rank(r@, rank) by {
            assert(of_rank(c, rank) == of_rank(s@, rank));
            assert(of_rank(r@, rank) == of_rank(s@, rank));
        }
        lemma_stable_sort_unique(c, r@);
    }
    r
}

/// Where `x` goes in an ordered sequence: behind all that are not larger.
proof fn lemma_place(s: Seq<Binary64>, x: Binary64) -> (p: int)
    requires
        ordered(s),
    ensures
        0 <= p <= s.len(),
        forall|i: int| 0 <= i < p ==> s[i].rank() <= x.rank(),
        forall|i: int| p <= i < s.len() ==> x.rank() < s[i].rank(),
    decreases s.len(),
{
    if s.len() == 0 || s.last().rank() <= x.rank() {
        assert forall|i: int| 0 <= i < s.len() implies s[i].rank() <= x.rank() by {
            assert(s[i].rank() <= s[s.len() - 1].rank());
        }
        s.len() as int
    } else {
        let t = s.drop_last();
        let p = lemma_place(t, x);
        assert forall|i: int| 0 <= i < p implies s[i].rank() <= x.rank() by {
            assert(t[i] == s[i]);
        }
        assert forall|i: int| p <= i < s.len() implies x.rank() < s[i].rank() by {
            if i < t.len() {
                assert(t[i] == s[i]);
            }
        }
        p
    }
}

proof fn lemma_sort_exists(s: Seq<Binary64>) -> (r: Seq<Binary64>)
    ensures
        stably_sorts(s, r),
        r.len() == s.len(),
    decreases s.len(),
{
    if s.len() == 0 {
        s
    } else {
        let x = s.last();
        let rest = s.drop_last();
        let t = lemma_sort_exists(rest);
        let p = lemma_place(t, x);
        let (a, b) = (t.take(p), t.skip(p));
        let r = a.push(x) + b;
        assert(t =~= a + b);
        assert(s =~= rest.push(x));
        assert forall|rank: int| #[trigger] of_rank(r, rank) == of_rank(s, rank) by {
            lemma_of_rank_add(a.push(x), b, rank);
            lemma_of_rank_add(a, b, rank);
            lemma_of_rank_push(a, x, rank);
            lemma_of_rank_push(rest, x, rank);
            assert(of_rank(t, rank) == of_rank(rest, rank));
            if rank == x.rank() {
                lemma_of_rank_absent(b, rank);
                assert(of_rank(r, rank) =~= of_rank(s, rank));
            }
        }
        r
    }
}

proof fn lemma_of_rank_count(s: Seq<Binary64>, x: Binary64)
    ensures
        of_rank(s, x.rank()).to_multiset().count(x) == s.to_multiset().count(x),
    decreases s.len(),
{
    broadcast use group_to_multiset_ensures;

    if s.len() == 0 {
        assert(s =~= Seq::<Binary64>::empty());
        lemma_of_rank_empty(x.rank());
    } else {
        lemma_of_rank_count(s.drop_last(), x);
        lemma_of_rank_push(s.drop_last(), s.last(), x.rank());
        assert(s =~= s.drop_last().push(s.last()));
    }
}

/// Sorting puts every sequence in order, loses and adds nothing, and keeps
/// equal members in the order they had.
pub proof fn lemma_sorted(s: Seq<Binary64>)
    ensures
        stably_sorts(s, sorted(s)),
        sorted(s).to_multiset() == s.to_multiset(),
        sorted(s).len() == s.len(),
{
    broadcast use group_to_multiset_ensures;

    let t = lemma_sort_exists(s);
    let r = sorted(s);
    assert forall|rank: int| #[trigger] of_rank(r, rank) == of_rank(t, rank) by {
        assert(of_rank(t, rank) == of_rank(s, rank));
        assert(of_rank(r, rank) == of_rank(s, rank));
    }
    lemma_stable_sort_unique(r, t);
    assert forall|x: Binary64| r.to_multiset().count(x) == s.to_multiset().count(x) by {
        lemma_of_rank_count(r, x);
        lemma_of_rank_count(s, x);
        assert(of_rank(r, x.rank()) == of_rank(s, x.rank()));
    }
    assert(r.to_multiset() =~= s.to_multiset());
}

/// Every member of a sequence is a member of it sorted, and the other way round.
pub proof fn lemma_sorted_members(s: Seq<Binary64>, x: Binary64)
    ensures
        sorted(s).contains(x) == s.contains(x),
{
    broadcast use group_to_multiset_ensures;

    lemma_sorted(s);
    assert(sorted(s).contains(x) == (sorted(s).to_multiset().count(x) > 0));
    assert(s.contains(x) == (s.to_multiset().count(x) > 0));
}

/// Sorting a sorted sequence leaves it as it is.
pub proof fn lemma_sorted_again(s: Seq<Binary64>)
    requires
        ordered(s),
    ensures
        sorted(s) == s,
{
    lemma_sorted(s);
    lemma_stable_sort_unique(sorted(s), s);
}

} // verus!
