//! Putting things in order, those that rank the same in the order they came in.

use vstd::prelude::*;

verus! {

/// Something that has a rank.
pub trait Ranked: Sized + Copy {
    /// Its rank: by the first number, then by the second.
    spec fn rank(self) -> (int, int);

    /// Whether `self` ranks no later than `other`.
    fn leads(&self, other: &Self) -> (r: bool)
        ensures
            r == rank_le(self.rank(), other.rank()),
    ;
}

/// Whether a rank is no later than another.
pub open spec fn rank_le(a: (int, int), b: (int, int)) -> bool {
    a.0 < b.0 || (a.0 == b.0 && a.1 <= b.1)
}

/// Whether everything stands in order.
pub open spec fn in_order<T: Ranked>(s: Seq<T>) -> bool {
    forall|i: int, j: int|
        0 <= i <= j < s.len() ==> rank_le((#[trigger] s[i]).rank(), (#[trigger] s[j]).rank())
}

/// Where a newcomer goes: behind the last one that ranks no later than it.
pub open spec fn place_for<T: Ranked>(s: Seq<T>, x: T) -> int
    decreases s.len(),
{
    if s.len() == 0 || rank_le(s.last().rank(), x.rank()) {
        s.len() as int
    } else {
        place_for(s.drop_last(), x)
    }
}

/// A sequence with a newcomer in its place.
pub open spec fn settled<T: Ranked>(s: Seq<T>, x: T) -> Seq<T> {
    s.insert(place_for(s, x), x)
}

/// A sequence in order, those that rank the same as they came in.
pub open spec fn ordered<T: Ranked>(s: Seq<T>) -> Seq<T>
    decreases s.len(),
{
    if s.len() == 0 {
        Seq::empty()
    } else {
        settled(ordered(s.drop_last()), s.last())
    }
}

proof fn lemma_place_for<T: Ranked>(s: Seq<T>, x: T)
    ensures
        0 <= place_for(s, x) <= s.len(),
        forall|i: int|
            place_for(s, x) <= i < s.len() ==> !rank_le((#[trigger] s[i]).rank(), x.rank()),
        place_for(s, x) > 0 ==> rank_le(s[place_for(s, x) - 1].rank(), x.rank()),
    decreases s.len(),
{
    if s.len() > 0 && !rank_le(s.last().rank(), x.rank()) {
        lemma_place_for(s.drop_last(), x);
        assert forall|i: int| place_for(s, x) <= i < s.len() implies !rank_le(
            (#[trigger] s[i]).rank(),
            x.rank(),
        ) by {
            if i < s.len() - 1 {
                assert(s.drop_last()[i] == s[i]);
            }
        }
    }
}

proof fn lemma_settled<T: Ranked>(s: Seq<T>, x: T)
    requires
        in_order(s),
    ensures
        in_order(settled(s, x)),
        settled(s, x).to_multiset() == s.to_multiset().insert(x),
{
    lemma_place_for(s, x);
    let p = place_for(s, x);
    let t = settled(s, x);
    vstd::seq_lib::to_multiset_insert(s, p, x);
    assert forall|i: int, j: int| 0 <= i <= j < t.len() implies rank_le(
        (#[trigger] t[i]).rank(),
        (#[trigger] t[j]).rank(),
    ) by {
        let a = if i < p {
            i
        } else {
            i - 1
        };
        let b = if j < p {
            j
        } else {
            j - 1
        };
        if i != p {
            assert(t[i] == s[a]);
        }
        if j != p {
            assert(t[j] == s[b]);
        }
        if i == p && j > p {
            assert(!rank_le(s[b].rank(), x.rank()));
        } else if j == p && i < p {
            assert(rank_le(s[i].rank(), s[p - 1].rank()));
        }
    }
}

/// Ordering keeps every element, and leaves them in order.
pub proof fn law_ordering_keeps_everything<T: Ranked>(s: Seq<T>)
    ensures
        in_order(ordered(s)),
        ordered(s).to_multiset() == s.to_multiset(),
        ordered(s).len() == s.len(),
    decreases s.len(),
{
    broadcast use vstd::seq_lib::group_to_multiset_ensures;

    if s.len() > 0 {
        law_ordering_keeps_everything(s.drop_last());
        lemma_settled(ordered(s.drop_last()), s.last());
        lemma_place_for(ordered(s.drop_last()), s.last());
        assert(s.drop_last().push(s.last()) =~= s);
    } else {
        assert(ordered(s) =~= s);
    }
}

/// How many of a sequence a condition holds of.
pub open spec fn how_many<T>(s: Seq<T>, p: spec_fn(T) -> bool) -> int
    decreases s.len(),
{
    if s.len() == 0 {
        0
    } else {
        how_many(s.drop_last(), p) + if p(s.last()) {
            1int
        } else {
            0
        }
    }
}

/// Where a condition holds of one of them, it holds of at least one.
pub proof fn lemma_how_many_holds<T>(s: Seq<T>, p: spec_fn(T) -> bool, i: int)
    requires
        0 <= i < s.len(),
        p(s[i]),
    ensures
        how_many(s, p) >= 1,
    decreases s.len(),
{
    lemma_how_many_bounds(s.drop_last(), p);
    if i < s.len() - 1 {
        assert(s.drop_last()[i] == s[i]);
        lemma_how_many_holds(s.drop_last(), p, i);
    }
}

/// It holds of none less than none, and of none more than there are.
pub proof fn lemma_how_many_bounds<T>(s: Seq<T>, p: spec_fn(T) -> bool)
    ensures
        0 <= how_many(s, p) <= s.len(),
        how_many(s, p) > 0 ==> exists|i: int| 0 <= i < s.len() && p(#[trigger] s[i]),
    decreases s.len(),
{
    if s.len() > 0 {
        let init = s.drop_last();
        lemma_how_many_bounds(init, p);
        if how_many(init, p) > 0 {
            let i = choose|i: int| 0 <= i < init.len() && p(#[trigger] init[i]);
            assert(p(s[i]));
        } else if p(s.last()) {
            assert(p(s[s.len() - 1]));
        }
    }
}

/// Of two conditions the wider holds of no fewer.
pub proof fn lemma_how_many_wider<T>(s: Seq<T>, p: spec_fn(T) -> bool, q: spec_fn(T) -> bool)
    requires
        forall|i: int| 0 <= i < s.len() && p(#[trigger] s[i]) ==> q(s[i]),
    ensures
        how_many(s, p) <= how_many(s, q),
    decreases s.len(),
{
    if s.len() > 0 {
        let init = s.drop_last();
        assert forall|i: int| 0 <= i < init.len() && p(#[trigger] init[i]) implies q(init[i]) by {
            assert(init[i] == s[i]);
        }
        lemma_how_many_wider(init, p, q);
        assert(s.last() == s[s.len() - 1]);
    }
}

/// It holds of no fewer in all of a sequence than in the start of it.
pub proof fn lemma_how_many_grows<T>(s: Seq<T>, p: spec_fn(T) -> bool, k: int)
    requires
        0 <= k <= s.len(),
    ensures
        how_many(s.take(k), p) <= how_many(s, p),
    decreases s.len(),
{
    if k < s.len() {
        lemma_how_many_grows(s.drop_last(), p, k);
        assert(s.drop_last().take(k) =~= s.take(k));
    } else {
        assert(s.take(k) =~= s);
    }
}

proof fn lemma_how_many_insert<T>(s: Seq<T>, p: spec_fn(T) -> bool, i: int, x: T)
    requires
        0 <= i <= s.len(),
    ensures
        how_many(s.insert(i, x), p) == how_many(s, p) + if p(x) {
            1int
        } else {
            0
        },
    decreases s.len(),
{
    let t = s.insert(i, x);
    if i == s.len() {
        assert(t.drop_last() =~= s);
        assert(t.last() == x);
    } else {
        lemma_how_many_insert(s.drop_last(), p, i, x);
        assert(t.drop_last() =~= s.drop_last().insert(i, x));
        assert(t.last() == s.last());
    }
}

/// Ordering changes nothing of how many a condition holds of.
pub proof fn lemma_how_many_ordered<T: Ranked>(s: Seq<T>, p: spec_fn(T) -> bool)
    ensures
        how_many(ordered(s), p) == how_many(s, p),
    decreases s.len(),
{
    if s.len() > 0 {
        let before = ordered(s.drop_last());
        lemma_how_many_ordered(s.drop_last(), p);
        lemma_place_for(before, s.last());
        lemma_how_many_insert(before, p, place_for(before, s.last()), s.last());
    }
}

/// What stands in order already stays as it is.
pub proof fn law_ordering_leaves_order_alone<T: Ranked>(s: Seq<T>)
    requires
        in_order(s),
    ensures
        ordered(s) == s,
    decreases s.len(),
{
    if s.len() > 0 {
        let init = s.drop_last();
        assert(in_order(init)) by {
            assert forall|i: int, j: int| 0 <= i <= j < init.len() implies rank_le(
                (#[trigger] init[i]).rank(),
                (#[trigger] init[j]).rank(),
            ) by {
                assert(init[i] == s[i] && init[j] == s[j]);
            }
        }
        law_ordering_leaves_order_alone(init);
        if init.len() > 0 {
            assert(rank_le(s[s.len() - 2].rank(), s[s.len() - 1].rank()));
        }
        assert(settled(init, s.last()) =~= s);
    } else {
        assert(ordered(s) =~= s);
    }
}

/// A sequence put in order.
pub fn put_in_order<T: Ranked>(v: &Vec<T>) -> (r: Vec<T>)
    ensures
        r@ == ordered(v@),
        in_order(r@),
        r@.to_multiset() == v@.to_multiset(),
{
    let mut out: Vec<T> = Vec::new();
    let mut i: usize = 0;
    assert(ordered(v@.take(0)) =~= Seq::<T>::empty());
    while i < v.len()
        invariant
            i <= v.len(),
            out@ == ordered(v@.take(i as int)),
            out@.len() == i,
        decreases v.len() - i,
    {
        let x = v[i];
        let mut p: usize = out.len();
        assert(out@.take(p as int) =~= out@);
        while p > 0 && !out[p - 1].leads(&x)
            invariant
                p <= out.len(),
                place_for(out@, x) == place_for(out@.take(p as int), x),
            decreases p,
        {
            assert(out@.take(p as int).drop_last() =~= out@.take(p - 1));
            assert(out@.take(p as int).last() == out@[p - 1]);
            p -= 1;
        }
        proof {
            if p > 0 {
                assert(out@.take(p as int).last() == out@[p - 1]);
            }
            assert(place_for(out@, x) == p);
            assert(v@.take(i + 1).drop_last() =~= v@.take(i as int));
        }
        out.insert(p, x);
        i += 1;
    }
    assert(v@.take(i as int) =~= v@);
    proof {
        law_ordering_keeps_everything(v@);
    }
    out
}

/// What is left of a row once it is filtered: what held, and nothing else, as often
/// as it held.
pub proof fn lemma_filter<T>(s: Seq<T>, p: spec_fn(T) -> bool)
    ensures
        forall|x: T| #[trigger] s.filter(p).contains(x) <==> s.contains(x) && p(x),
        s.filter(p).len() == how_many(s, p),
        s.filter(p).len() <= s.len(),
    decreases s.len(),
{
    reveal(Seq::filter);
    if s.len() > 0 {
        let front = s.drop_last();
        lemma_filter(front, p);
        assert(s =~= front.push(s.last()));
        let kept = front.filter(p);
        assert(s.filter(p) == if p(s.last()) {
            kept.push(s.last())
        } else {
            kept
        });
        assert forall|x: T| #[trigger] s.filter(p).contains(x) <==> s.contains(x) && p(x) by {
            if s.contains(x) && p(x) {
                let i = choose|i: int| 0 <= i < s.len() && s[i] == x;
                if i < front.len() {
                    assert(front[i] == x);
                    assert(front.contains(x));
                    assert(kept.contains(x));
                    let j = choose|j: int| 0 <= j < kept.len() && kept[j] == x;
                    assert(s.filter(p)[j] == x);
                } else {
                    assert(s.filter(p)[kept.len() as int] == x);
                }
            }
            if s.filter(p).contains(x) {
                let j = choose|j: int| 0 <= j < s.filter(p).len() && s.filter(p)[j] == x;
                if j < kept.len() {
                    assert(kept[j] == x);
                    assert(kept.contains(x));
                    let i = choose|i: int| 0 <= i < front.len() && front[i] == x;
                    assert(s[i] == x);
                } else {
                    assert(s[s.len() - 1] == x);
                }
            }
        }
    }
}

/// Ordering leaves those that rank the same as they came in.
pub proof fn law_ordering_is_stable<T: Ranked>(s: Seq<T>, r: (int, int))
    ensures
        ordered(s).filter(|x: T| x.rank() == r) == s.filter(|x: T| x.rank() == r),
    decreases s.len(),
{
    let p = |x: T| x.rank() == r;
    reveal(Seq::filter);
    if s.len() > 0 {
        let init = s.drop_last();
        let x = s.last();
        law_ordering_is_stable(init, r);
        let before = ordered(init);
        lemma_place_for(before, x);
        let k = place_for(before, x);
        let front = before.take(k);
        let back = before.skip(k);
        assert(before =~= front + back);
        assert(settled(before, x) =~= front + seq![x] + back);
        Seq::filter_distributes_over_add(front, back, p);
        Seq::filter_distributes_over_add(front + seq![x], back, p);
        Seq::filter_distributes_over_add(front, seq![x], p);
        assert(seq![x].drop_last() =~= Seq::empty());
        assert(seq![x].filter(p) =~= (if p(x) {
            seq![x]
        } else {
            Seq::empty()
        })) by {
            reveal_with_fuel(Seq::filter, 2);
        }
        if p(x) {
            assert forall|i: int| 0 <= i < back.len() implies !p(#[trigger] back[i]) by {
                assert(!rank_le(before[k + i].rank(), x.rank()));
            }
            lemma_none_left(back, p);
            assert(ordered(s).filter(p) =~= before.filter(p).push(x));
        } else {
            assert(ordered(s).filter(p) =~= before.filter(p));
        }
    } else {
        assert(ordered(s).filter(p) =~= s.filter(p));
    }
}

proof fn lemma_none_left<T>(s: Seq<T>, p: spec_fn(T) -> bool)
    requires
        forall|i: int| 0 <= i < s.len() ==> !p(#[trigger] s[i]),
    ensures
        s.filter(p).len() == 0,
    decreases s.len(),
{
    reveal(Seq::filter);
    if s.len() > 0 {
        let init = s.drop_last();
        assert forall|i: int| 0 <= i < init.len() implies !p(#[trigger] init[i]) by {
            assert(init[i] == s[i]);
        }
        lemma_none_left(init, p);
        assert(!p(s[s.len() - 1]));
    }
}

/// Ranks go by their first number, and by their second where the first is the same;
/// of two one is no later than the other.
pub proof fn law_how_ranks_compare(a: (int, int), b: (int, int))
    ensures
        a.0 < b.0 ==> rank_le(a, b) && !rank_le(b, a),
        a.0 == b.0 ==> (rank_le(a, b) <==> a.1 <= b.1),
        rank_le(a, b) || rank_le(b, a),
        rank_le(a, b) && rank_le(b, a) ==> a == b,
{
}

} // verus!
