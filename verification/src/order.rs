//! Orders and sorting: lexicographic comparison of sequences, and a stable
//! merge sort for values that carry a total preorder.

use vstd::prelude::*;
use vstd::relations::{antisymmetric, reflexive, sorted_by, strongly_connected, total_ordering, transitive};
use vstd::seq_lib::lemma_sorted_unique;
use vstd::set_lib::{lemma_int_range, lemma_subset_equality, set_int_range};

verus! {

/// `leq` relates any two values in at least one direction and is transitive.
pub open spec fn total_preorder<A>(leq: spec_fn(A, A) -> bool) -> bool {
    &&& forall|a: A, b: A| #[trigger] leq(a, b) || leq(b, a)
    &&& forall|a: A, b: A, c: A| #[trigger] leq(a, b) && #[trigger] leq(b, c) ==> leq(a, c)
}

/// `s` with `x` put behind every trailing element that may stand before it.
pub open spec fn insert_ordered<A>(s: Seq<A>, x: A, leq: spec_fn(A, A) -> bool) -> Seq<A>
    decreases s.len(),
{
    if s.len() == 0 || leq(s.last(), x) {
        s.push(x)
    } else {
        insert_ordered(s.drop_last(), x, leq).push(s.last())
    }
}

/// The elements of `s` in the order of `leq`; elements that tie keep the order
/// in which they stand in `s`.
pub open spec fn stable_sorted<A>(s: Seq<A>, leq: spec_fn(A, A) -> bool) -> Seq<A>
    decreases s.len(),
{
    if s.len() == 0 {
        s
    } else {
        insert_ordered(stable_sorted(s.drop_last(), leq), s.last(), leq)
    }
}

/// Position `a` of `s` belongs strictly before position `b`: its element is
/// smaller, or it ties and stood first.
pub open spec fn stands_before<A>(s: Seq<A>, leq: spec_fn(A, A) -> bool, a: int, b: int) -> bool {
    leq(s[a], s[b]) && (leq(s[b], s[a]) ==> a < b)
}

/// `places` lists positions of `s`, each before the next ones.
pub open spec fn ranks<A>(s: Seq<A>, leq: spec_fn(A, A) -> bool, places: Seq<int>) -> bool {
    &&& forall|i: int| 0 <= i < places.len() ==> 0 <= #[trigger] places[i] < s.len()
    &&& forall|i: int, j: int|
        0 <= i < j < places.len() ==> stands_before(s, leq, #[trigger] places[i], #[trigger] places[j])
}

/// The elements of `s` at the given positions.
pub open spec fn at_places<A>(s: Seq<A>, places: Seq<int>) -> Seq<A> {
    Seq::new(places.len(), |i: int| s[places[i]])
}

/// `out` holds the elements of `s`, ordered by `leq`, ties in their old order.
pub open spec fn is_stable_sort<A>(s: Seq<A>, out: Seq<A>, leq: spec_fn(A, A) -> bool) -> bool {
    exists|places: Seq<int>|
        #![trigger ranks(s, leq, places)]
        ranks(s, leq, places) && places.len() == s.len() && out == at_places(s, places)
}

proof fn lemma_insert_position<A>(s: Seq<A>, x: A, leq: spec_fn(A, A) -> bool) -> (k: int)
    ensures
        0 <= k <= s.len(),
        insert_ordered(s, x, leq) == s.insert(k, x),
        k > 0 ==> leq(s[k - 1], x),
        forall|j: int| k <= j < s.len() ==> !leq(#[trigger] s[j], x),
    decreases s.len(),
{
    if s.len() == 0 || leq(s.last(), x) {
        assert(s.push(x) =~= s.insert(s.len() as int, x));
        s.len() as int
    } else {
        let k = lemma_insert_position(s.drop_last(), x, leq);
        assert(s.drop_last().insert(k, x).push(s.last()) =~= s.insert(k, x));
        assert forall|j: int| k <= j < s.len() implies !leq(#[trigger] s[j], x) by {
            if j < s.len() - 1 {
                assert(s.drop_last()[j] == s[j]);
            }
        }
        k
    }
}

/// Sorting orders the elements, loses none, invents none and keeps ties in
/// their old order.
pub proof fn sorting_is_stable<A>(s: Seq<A>, leq: spec_fn(A, A) -> bool)
    requires
        total_preorder(leq),
    ensures
        is_stable_sort(s, stable_sorted(s, leq), leq),
    decreases s.len(),
{
    if s.len() == 0 {
        let places = Seq::<int>::empty();
        assert(ranks(s, leq, places));
        assert(stable_sorted(s, leq) =~= at_places(s, places));
    } else {
        let front = s.drop_last();
        sorting_is_stable(front, leq);
        let places = choose|places: Seq<int>|
            #![trigger ranks(front, leq, places)]
            ranks(front, leq, places) && places.len() == front.len() && stable_sorted(front, leq)
                == at_places(front, places);
        let sorted = stable_sorted(front, leq);
        let x = s.last();
        let k = lemma_insert_position(sorted, x, leq);
        let n = s.len() - 1;
        let more = places.insert(k, n);
        assert forall|i: int, j: int| 0 <= i < j < more.len() implies stands_before(
            s,
            leq,
            #[trigger] more[i],
            #[trigger] more[j],
        ) by {
            if i == k {
                assert(more[j] == places[j - 1]);
                assert(sorted[j - 1] == front[places[j - 1]]);
                assert(!leq(sorted[j - 1], x));
            } else if j == k {
                assert(sorted[k - 1] == front[places[k - 1]]);
                assert(sorted[i] == front[places[i]]);
                if i < k - 1 {
                    assert(stands_before(front, leq, places[i], places[k - 1]));
                }
                assert(leq(sorted[i], x));
            } else {
                let a = if i < k { i } else { i - 1 };
                let b = if j < k { j } else { j - 1 };
                assert(stands_before(front, leq, places[a], places[b]));
            }
        }
        assert(ranks(s, leq, more));
        assert(stable_sorted(s, leq) =~= at_places(s, more)) by {
            assert forall|i: int| 0 <= i < more.len() implies sorted.insert(k, x)[i] == s[more[i]] by {
                if i < k {
                    assert(sorted[i] == front[places[i]]);
                } else if i > k {
                    assert(sorted[i - 1] == front[places[i - 1]]);
                }
            }
        }
    }
}

/// Sorted elements stand in order.
pub proof fn sorted_is_ordered<A>(s: Seq<A>, leq: spec_fn(A, A) -> bool)
    requires
        total_preorder(leq),
    ensures
        forall|i: int, j: int|
            0 <= i < j < stable_sorted(s, leq).len() ==> leq(
                #[trigger] stable_sorted(s, leq)[i],
                #[trigger] stable_sorted(s, leq)[j],
            ),
{
    sorting_is_stable(s, leq);
    let out = stable_sorted(s, leq);
    let places = choose|places: Seq<int>|
        #![trigger ranks(s, leq, places)]
        ranks(s, leq, places) && places.len() == s.len() && out == at_places(s, places);
    assert forall|i: int, j: int| 0 <= i < j < out.len() implies leq(#[trigger] out[i], #[trigger] out[j]) by {
        assert(out[i] == s[places[i]] && out[j] == s[places[j]]);
        assert(stands_before(s, leq, places[i], places[j]));
    }
}

/// Sorting neither loses nor invents elements, nor changes how often each
/// occurs.
pub proof fn sorting_keeps_elements<A>(s: Seq<A>, leq: spec_fn(A, A) -> bool)
    ensures
        stable_sorted(s, leq).to_multiset() == s.to_multiset(),
        stable_sorted(s, leq).len() == s.len(),
    decreases s.len(),
{
    broadcast use vstd::seq_lib::group_to_multiset_ensures;

    if s.len() > 0 {
        let front = stable_sorted(s.drop_last(), leq);
        sorting_keeps_elements(s.drop_last(), leq);
        let k = lemma_insert_position(front, s.last(), leq);
        front.insert_ensures(k, s.last());
        vstd::seq_lib::to_multiset_insert(front, k, s.last());
        assert(s =~= s.drop_last().push(s.last()));
        vstd::seq_lib::to_multiset_build(s.drop_last(), s.last());
    }
}

/// The order on positions that `stands_before` gives, extended to all integers.
spec fn place_order<A>(s: Seq<A>, leq: spec_fn(A, A) -> bool) -> spec_fn(int, int) -> bool {
    |a: int, b: int|
        {
            let a_in = 0 <= a < s.len();
            let b_in = 0 <= b < s.len();
            if a_in && b_in {
                leq(s[a], s[b]) && (leq(s[b], s[a]) ==> a <= b)
            } else if a_in {
                true
            } else if b_in {
                false
            } else {
                a <= b
            }
        }
}

proof fn lemma_place_order_total<A>(s: Seq<A>, leq: spec_fn(A, A) -> bool)
    requires
        total_preorder(leq),
    ensures
        total_ordering(place_order(s, leq)),
{
    let r = place_order(s, leq);
    assert(reflexive(r)) by {
        assert forall|a: int| #[trigger] r(a, a) by {
            assert(leq(s[a], s[a]) || leq(s[a], s[a]));
        }
    }
    assert(antisymmetric(r));
    assert forall|a: int, b: int, c: int| #[trigger] r(a, b) && #[trigger] r(b, c) implies r(a, c) by {
        if 0 <= a < s.len() && 0 <= b < s.len() && 0 <= c < s.len() {
            assert(leq(s[a], s[b]) && leq(s[b], s[c]));
            if leq(s[c], s[a]) {
                assert(leq(s[b], s[a])) by {
                    assert(leq(s[b], s[c]) && leq(s[c], s[a]));
                }
                assert(leq(s[c], s[b])) by {
                    assert(leq(s[c], s[a]) && leq(s[a], s[b]));
                }
            }
        }
    }
    assert(transitive(r));
    assert forall|a: int, b: int| #[trigger] r(a, b) || r(b, a) by {
        assert(leq(s[a], s[b]) || leq(s[b], s[a]));
    }
    assert(strongly_connected(r));
}

proof fn lemma_places_cover<A>(s: Seq<A>, leq: spec_fn(A, A) -> bool, places: Seq<int>)
    requires
        total_preorder(leq),
        ranks(s, leq, places),
        places.len() == s.len(),
    ensures
        places.no_duplicates(),
        places.to_set() == set_int_range(0, s.len() as int),
{
    assert forall|i: int, j: int| 0 <= i < places.len() && 0 <= j < places.len() && i != j implies places[i]
        != places[j] by {
        let a = if i < j { i } else { j };
        let b = if i < j { j } else { i };
        assert(stands_before(s, leq, places[a], places[b]));
        assert(leq(s[places[a]], s[places[a]]) || leq(s[places[a]], s[places[a]]));
    }
    places.unique_seq_to_set();
    lemma_int_range(0, s.len() as int);
    assert(places.to_set().subset_of(set_int_range(0, s.len() as int)));
    lemma_subset_equality(places.to_set(), set_int_range(0, s.len() as int));
}

/// Each element may stand before all that follow it.
pub open spec fn ordered<A>(s: Seq<A>, leq: spec_fn(A, A) -> bool) -> bool {
    forall|i: int, j: int| 0 <= i < j < s.len() ==> leq(#[trigger] s[i], #[trigger] s[j])
}

/// Two orderings of the same elements are the same, where elements that may stand
/// before each other are.
pub proof fn orderings_are_unique<A>(a: Seq<A>, b: Seq<A>, leq: spec_fn(A, A) -> bool)
    requires
        ordered(a, leq),
        ordered(b, leq),
        a.to_multiset() == b.to_multiset(),
        forall|x: A, y: A|
            a.contains(x) && a.contains(y) && #[trigger] leq(x, y) && #[trigger] leq(y, x) ==> x == y,
    ensures
        a == b,
    decreases a.len(),
{
    broadcast use vstd::seq_lib::group_to_multiset_ensures;

    assert(a.to_multiset().len() == a.len() && b.to_multiset().len() == b.len());
    if a.len() == 0 {
        assert(a =~= b);
    } else {
        let (x, y) = (a.last(), b.last());
        let (front, less) = (a.drop_last(), b.drop_last());
        assert(a.contains(x));
        assert(a.to_multiset().count(x) > 0);
        assert(b.contains(x));
        assert(b.contains(y));
        assert(b.to_multiset().count(y) > 0);
        assert(a.contains(y));
        let i = choose|i: int| 0 <= i < b.len() && b[i] == x;
        let j = choose|j: int| 0 <= j < a.len() && a[j] == y;
        if x != y {
            assert(leq(b[i], b[b.len() - 1]));
            assert(leq(a[j], a[a.len() - 1]));
        }
        assert(front.push(x) =~= a);
        assert(less.push(y) =~= b);
        vstd::seq_lib::to_multiset_build(front, x);
        vstd::seq_lib::to_multiset_build(less, y);
        assert(front.to_multiset() =~= a.to_multiset().remove(x));
        assert(less.to_multiset() =~= b.to_multiset().remove(y));
        assert forall|p: A, q: A|
            front.contains(p) && front.contains(q) && #[trigger] leq(p, q) && #[trigger] leq(q, p) implies p == q by {
            let m = choose|m: int| 0 <= m < front.len() && front[m] == p;
            let n = choose|n: int| 0 <= n < front.len() && front[n] == q;
            assert(a[m] == p && a[n] == q);
        }
        assert(ordered(front, leq)) by {
            assert forall|m: int, n: int| 0 <= m < n < front.len() implies leq(#[trigger] front[m], #[trigger] front[n]) by {
                assert(leq(a[m], a[n]));
            }
        }
        assert(ordered(less, leq)) by {
            assert forall|m: int, n: int| 0 <= m < n < less.len() implies leq(#[trigger] less[m], #[trigger] less[n]) by {
                assert(leq(b[m], b[n]));
            }
        }
        orderings_are_unique(front, less, leq);
    }
}

/// Leaving elements out keeps an order, and leaves out the same elements wherever
/// they stand.
pub proof fn filtering_keeps_order<A>(s: Seq<A>, keep: spec_fn(A) -> bool, leq: spec_fn(A, A) -> bool)
    requires
        ordered(s, leq),
    ensures
        ordered(s.filter(keep), leq),
        s.filter(keep).to_multiset() == s.to_multiset().filter(keep),
        forall|x: A| #[trigger] s.filter(keep).contains(x) ==> s.contains(x),
    decreases s.len(),
{
    broadcast use vstd::seq_lib::group_to_multiset_ensures;
    broadcast use vstd::multiset::group_multiset_axioms;

    reveal(Seq::filter);
    let kept = s.filter(keep);
    if s.len() == 0 {
        assert(kept.to_multiset() =~= s.to_multiset().filter(keep));
    } else {
        let front = s.drop_last();
        let less = front.filter(keep);
        assert(ordered(front, leq)) by {
            assert forall|m: int, n: int| 0 <= m < n < front.len() implies leq(#[trigger] front[m], #[trigger] front[n]) by {
                assert(leq(s[m], s[n]));
            }
        }
        filtering_keeps_order(front, keep, leq);
        assert(front.push(s.last()) =~= s);
        vstd::seq_lib::to_multiset_build(front, s.last());
        vstd::seq_lib::to_multiset_build(less, s.last());
        assert(kept.to_multiset() =~= s.to_multiset().filter(keep));
        assert forall|x: A| #[trigger] kept.contains(x) implies s.contains(x) by {
            let i = choose|i: int| 0 <= i < kept.len() && kept[i] == x;
            if i < less.len() {
                assert(less[i] == x);
                assert(less.contains(x));
                let m = choose|m: int| 0 <= m < front.len() && front[m] == x;
                assert(s[m] == x);
            } else {
                assert(s[s.len() - 1] == x);
            }
        }
        assert forall|m: int, n: int| 0 <= m < n < kept.len() implies leq(#[trigger] kept[m], #[trigger] kept[n]) by {
            assert(less[m] == kept[m]);
            if n < less.len() {
                assert(less[n] == kept[n]);
            } else {
                assert(less.contains(kept[m]));
                let k = choose|k: int| 0 <= k < front.len() && front[k] == kept[m];
                assert(leq(s[k], s[s.len() - 1]));
            }
        }
    }
}

/// A stable sort has one outcome only.
pub proof fn stable_sort_is_unique<A>(s: Seq<A>, first: Seq<A>, second: Seq<A>, leq: spec_fn(A, A) -> bool)
    requires
        total_preorder(leq),
        is_stable_sort(s, first, leq),
        is_stable_sort(s, second, leq),
    ensures
        first == second,
{
    let p = choose|places: Seq<int>|
        #![trigger ranks(s, leq, places)]
        ranks(s, leq, places) && places.len() == s.len() && first == at_places(s, places);
    let q = choose|places: Seq<int>|
        #![trigger ranks(s, leq, places)]
        ranks(s, leq, places) && places.len() == s.len() && second == at_places(s, places);
    lemma_places_cover(s, leq, p);
    lemma_places_cover(s, leq, q);
    let r = place_order(s, leq);
    lemma_place_order_total(s, leq);
    assert(sorted_by(p, r)) by {
        assert forall|i: int, j: int| 0 <= i < j < p.len() implies #[trigger] r(p[i], p[j]) by {
            assert(stands_before(s, leq, p[i], p[j]));
        }
    }
    assert(sorted_by(q, r)) by {
        assert forall|i: int, j: int| 0 <= i < j < q.len() implies #[trigger] r(q[i], q[j]) by {
            assert(stands_before(s, leq, q[i], q[j]));
        }
    }
    assert(p.to_multiset() =~= q.to_multiset()) by {
        broadcast use vstd::seq_lib::group_to_multiset_ensures;

        p.lemma_multiset_has_no_duplicates();
        q.lemma_multiset_has_no_duplicates();
        assert forall|x: int| p.to_multiset().count(x) == q.to_multiset().count(x) by {
            assert(p.contains(x) == p.to_set().contains(x));
            assert(q.contains(x) == q.to_set().contains(x));
            assert(p.contains(x) <==> p.to_multiset().count(x) > 0);
            assert(q.contains(x) <==> q.to_multiset().count(x) > 0);
            if p.to_multiset().count(x) > 0 {
                assert(p.to_multiset().contains(x));
            }
            if q.to_multiset().count(x) > 0 {
                assert(q.to_multiset().contains(x));
            }
        }
    }
    lemma_sorted_unique(p, q, r);
}

/// Values that come in a total preorder of their views.
pub trait Ranked: View + Sized {
    /// `a` may stand before `b`.
    spec fn in_order(a: Self::V, b: Self::V) -> bool;

    proof fn order_is_total(a: Self::V, b: Self::V)
        ensures
            Self::in_order(a, b) || Self::in_order(b, a),
    ;

    proof fn order_is_transitive(a: Self::V, b: Self::V, c: Self::V)
        requires
            Self::in_order(a, b),
            Self::in_order(b, c),
        ensures
            Self::in_order(a, c),
    ;

    fn may_precede(&self, other: &Self) -> (yes: bool)
        ensures
            yes == Self::in_order(self@, other@),
    ;
}

/// The order of `T` as a relation.
pub open spec fn order_of<T: Ranked>() -> spec_fn(T::V, T::V) -> bool {
    |a: T::V, b: T::V| T::in_order(a, b)
}

/// The views of the elements of `s`.
pub open spec fn views<T: View>(s: Seq<T>) -> Seq<T::V> {
    Seq::new(s.len(), |i: int| s[i]@)
}

/// The order of a ranked type is a total preorder.
pub proof fn ranked_is_total_preorder<T: Ranked>()
    ensures
        total_preorder(order_of::<T>()),
{
    let leq = order_of::<T>();
    assert forall|a: T::V, b: T::V| #[trigger] leq(a, b) || leq(b, a) by {
        T::order_is_total(a, b);
    }
    assert forall|a: T::V, b: T::V, c: T::V| #[trigger] leq(a, b) && #[trigger] leq(b, c) implies leq(a, c) by {
        T::order_is_transitive(a, b, c);
    }
}

/// The positions left to merge: those of `left` in front of `i`, those of
/// `right` in front of `j`, each before every position in `tail`.
spec fn merge_state<A>(
    s: Seq<A>,
    leq: spec_fn(A, A) -> bool,
    left: Seq<int>,
    right: Seq<int>,
    tail: Seq<int>,
) -> bool {
    &&& ranks(s, leq, left)
    &&& ranks(s, leq, right)
    &&& ranks(s, leq, tail)
    &&& forall|a: int, b: int|
        0 <= a < left.len() && 0 <= b < right.len() ==> #[trigger] left[a] < #[trigger] right[b]
    &&& forall|a: int, k: int|
        0 <= a < left.len() && 0 <= k < tail.len() ==> stands_before(s, leq, #[trigger] left[a], #[trigger] tail[k])
    &&& forall|b: int, k: int|
        0 <= b < right.len() && 0 <= k < tail.len() ==> stands_before(
            s,
            leq,
            #[trigger] right[b],
            #[trigger] tail[k],
        )
}

proof fn lemma_merge_takes_right<A>(
    s: Seq<A>,
    leq: spec_fn(A, A) -> bool,
    left: Seq<int>,
    right: Seq<int>,
    tail: Seq<int>,
)
    requires
        total_preorder(leq),
        merge_state(s, leq, left, right, tail),
        right.len() > 0,
        left.len() == 0 || leq(s[left.last()], s[right.last()]),
    ensures
        merge_state(s, leq, left, right.drop_last(), seq![right.last()] + tail),
{
    let y = right.last();
    let rest = right.drop_last();
    let more = seq![y] + tail;
    assert forall|a: int| 0 <= a < left.len() implies stands_before(s, leq, #[trigger] left[a], y) by {
        if a < left.len() - 1 {
            assert(stands_before(s, leq, left[a], left[left.len() - 1]));
        }
        assert(left[a] < right[right.len() - 1]);
    }
    assert forall|b: int| 0 <= b < rest.len() implies stands_before(s, leq, #[trigger] rest[b], y) by {
        assert(stands_before(s, leq, right[b], right[right.len() - 1]));
    }
    assert forall|k: int| 0 <= k < tail.len() implies stands_before(s, leq, y, #[trigger] tail[k]) by {
        assert(stands_before(s, leq, right[right.len() - 1], tail[k]));
    }
    assert forall|i: int, j: int| 0 <= i < j < more.len() implies stands_before(
        s,
        leq,
        #[trigger] more[i],
        #[trigger] more[j],
    ) by {
        if i > 0 {
            assert(stands_before(s, leq, tail[i - 1], tail[j - 1]));
        } else {
            assert(more[j] == tail[j - 1]);
        }
    }
    assert(forall|i: int| 0 <= i < more.len() ==> #[trigger] more[i] == if i == 0 { y } else { tail[i - 1] });
    assert(forall|b: int| 0 <= b < rest.len() ==> #[trigger] rest[b] == right[b]);
}

proof fn lemma_merge_takes_left<A>(
    s: Seq<A>,
    leq: spec_fn(A, A) -> bool,
    left: Seq<int>,
    right: Seq<int>,
    tail: Seq<int>,
)
    requires
        total_preorder(leq),
        merge_state(s, leq, left, right, tail),
        left.len() > 0,
        right.len() == 0 || !leq(s[left.last()], s[right.last()]),
    ensures
        merge_state(s, leq, left.drop_last(), right, seq![left.last()] + tail),
{
    let x = left.last();
    let rest = left.drop_last();
    let more = seq![x] + tail;
    assert forall|b: int| 0 <= b < right.len() implies stands_before(s, leq, #[trigger] right[b], x) by {
        let y = right[right.len() - 1];
        assert(leq(s[y], s[x]) || leq(s[x], s[y]));
        if b < right.len() - 1 {
            assert(stands_before(s, leq, right[b], y));
        }
        if leq(s[x], s[right[b]]) {
            assert(leq(s[right[b]], s[y]) || b == right.len() - 1);
        }
    }
    assert forall|a: int| 0 <= a < rest.len() implies stands_before(s, leq, #[trigger] rest[a], x) by {
        assert(stands_before(s, leq, left[a], left[left.len() - 1]));
    }
    assert forall|k: int| 0 <= k < tail.len() implies stands_before(s, leq, x, #[trigger] tail[k]) by {
        assert(stands_before(s, leq, left[left.len() - 1], tail[k]));
    }
    assert forall|i: int, j: int| 0 <= i < j < more.len() implies stands_before(
        s,
        leq,
        #[trigger] more[i],
        #[trigger] more[j],
    ) by {
        if i > 0 {
            assert(stands_before(s, leq, tail[i - 1], tail[j - 1]));
        } else {
            assert(more[j] == tail[j - 1]);
        }
    }
    assert(forall|i: int| 0 <= i < more.len() ==> #[trigger] more[i] == if i == 0 { x } else { tail[i - 1] });
    assert(forall|a: int| 0 <= a < rest.len() ==> #[trigger] rest[a] == left[a]);
}

/// The elements of `items` from the last to the first.
fn reversed<T>(items: Vec<T>) -> (out: Vec<T>)
    ensures
        out@ == items@.reverse(),
{
    let mut rest = items;
    let mut out: Vec<T> = Vec::new();
    while rest.len() > 0
        invariant
            rest@.len() <= items@.len(),
            rest@ == items@.take(rest@.len() as int),
            out@ == items@.skip(rest@.len() as int).reverse(),
        decreases rest.len(),
    {
        let ghost before = rest@;
        if let Some(item) = rest.pop() {
            out.push(item);
        }
        assert(out@ =~= items@.skip(rest@.len() as int).reverse());
    }
    assert(items@.skip(0) =~= items@);
    out
}

proof fn lemma_views_at<T: View>(s: Seq<T>, i: int)
    requires
        0 <= i < s.len(),
    ensures
        views(s)[i] == s[i]@,
{
}

/// Merges two sorted runs, the elements of `left` first among ties.
fn merge<T: Ranked>(left: Vec<T>, right: Vec<T>, Ghost(front): Ghost<Seq<T::V>>, Ghost(back): Ghost<Seq<T::V>>) -> (out:
    Vec<T>)
    requires
        is_stable_sort(front, views(left@), order_of::<T>()),
        is_stable_sort(back, views(right@), order_of::<T>()),
    ensures
        is_stable_sort(front + back, views(out@), order_of::<T>()),
{
    let ghost leq = order_of::<T>();
    let ghost s = front + back;
    let ghost n = front.len();
    let ghost p = choose|places: Seq<int>|
        #![trigger ranks(front, leq, places)]
        ranks(front, leq, places) && places.len() == n && views(left@) == at_places(front, places);
    let ghost q0 = choose|places: Seq<int>|
        #![trigger ranks(back, leq, places)]
        ranks(back, leq, places) && places.len() == back.len() && views(right@) == at_places(back, places);
    let ghost q = Seq::new(q0.len(), |i: int| n + q0[i]);
    let ghost mut tail = Seq::<int>::empty();
    let ghost left0 = left@;
    let ghost right0 = right@;
    proof {
        ranked_is_total_preorder::<T>();
        assert(ranks(s, leq, p)) by {
            assert forall|i: int, j: int| 0 <= i < j < p.len() implies stands_before(
                s,
                leq,
                #[trigger] p[i],
                #[trigger] p[j],
            ) by {
                assert(stands_before(front, leq, p[i], p[j]));
            }
        }
        assert(ranks(s, leq, q)) by {
            assert forall|i: int, j: int| 0 <= i < j < q.len() implies stands_before(
                s,
                leq,
                #[trigger] q[i],
                #[trigger] q[j],
            ) by {
                assert(stands_before(back, leq, q0[i], q0[j]));
            }
        }
        assert(merge_state(s, leq, p, q, tail));
        assert(views(left@).len() == at_places(front, p).len());
        assert(views(right@).len() == at_places(back, q0).len());
        assert(p.take(left@.len() as int) =~= p);
        assert(q.take(right@.len() as int) =~= q);
        assert forall|i: int| 0 <= i < left0.len() implies #[trigger] left0[i]@ == s[p[i]] by {
            lemma_views_at(left0, i);
        }
        assert forall|i: int| 0 <= i < right0.len() implies #[trigger] right0[i]@ == s[q[i]] by {
            lemma_views_at(right0, i);
        }
    }
    let mut left = left;
    let mut right = right;
    let mut out: Vec<T> = Vec::new();
    while left.len() > 0 || right.len() > 0
        invariant
            leq == order_of::<T>(),
            total_preorder(leq),
            s == front + back,
            p.len() == left0.len(),
            q.len() == right0.len(),
            left@.len() <= left0.len(),
            right@.len() <= right0.len(),
            left@ == left0.take(left@.len() as int),
            right@ == right0.take(right@.len() as int),
            forall|i: int| 0 <= i < left0.len() ==> #[trigger] left0[i]@ == s[p[i]],
            forall|i: int| 0 <= i < right0.len() ==> #[trigger] right0[i]@ == s[q[i]],
            merge_state(s, leq, p.take(left@.len() as int), q.take(right@.len() as int), tail),
            tail.len() == out@.len(),
            tail.len() + left@.len() + right@.len() == left0.len() + right0.len(),
            forall|k: int| 0 <= k < tail.len() ==> #[trigger] out@[k]@ == s[tail[tail.len() - 1 - k]],
        decreases left.len() + right.len(),
    {
        let ghost a = p.take(left@.len() as int);
        let ghost b = q.take(right@.len() as int);
        let take_right = if left.len() == 0 {
            true
        } else if right.len() == 0 {
            false
        } else {
            left[left.len() - 1].may_precede(&right[right.len() - 1])
        };
        proof {
            if left@.len() > 0 {
                assert(left@.last() == left0[left@.len() - 1]);
                assert(a.last() == p[left@.len() - 1]);
            }
            if right@.len() > 0 {
                assert(right@.last() == right0[right@.len() - 1]);
                assert(b.last() == q[right@.len() - 1]);
            }
        }
        if take_right {
            proof {
                lemma_merge_takes_right(s, leq, a, b, tail);
                assert(b.drop_last() =~= q.take(right@.len() - 1));
                tail = seq![b.last()] + tail;
            }
            if let Some(item) = right.pop() {
                out.push(item);
            }
        } else {
            proof {
                lemma_merge_takes_left(s, leq, a, b, tail);
                assert(a.drop_last() =~= p.take(left@.len() - 1));
                tail = seq![a.last()] + tail;
            }
            if let Some(item) = left.pop() {
                out.push(item);
            }
        }
    }
    let ghost merged = out@;
    let out = reversed(out);
    proof {
        assert(ranks(s, leq, tail));
        assert(views(out@) =~= at_places(s, tail)) by {
            assert forall|i: int| 0 <= i < out@.len() implies out@[i]@ == s[#[trigger] tail[i]] by {
                assert(out@[i] == merged[merged.len() - 1 - i]);
            }
        }
    }
    out
}

fn merge_sorted_runs<T: Ranked>(items: Vec<T>) -> (out: Vec<T>)
    ensures
        is_stable_sort(views(items@), views(out@), order_of::<T>()),
    decreases items.len(),
{
    let count = items.len();
    if count <= 1 {
        proof {
            let s = views(items@);
            let places = Seq::new(s.len(), |i: int| i);
            assert(ranks(s, order_of::<T>(), places));
            assert(s =~= at_places(s, places));
        }
        return items;
    }
    let ghost whole = items@;
    let mut front = items;
    let back = front.split_off(count / 2);
    let ghost front_views = views(front@);
    let ghost back_views = views(back@);
    let left = merge_sorted_runs(front);
    let right = merge_sorted_runs(back);
    assert(front_views + back_views =~= views(whole));
    merge(left, right, Ghost(front_views), Ghost(back_views))
}

/// Sorts `items` by the order of their type; ties keep their order.
pub fn sort<T: Ranked>(items: Vec<T>) -> (out: Vec<T>)
    ensures
        views(out@) == stable_sorted(views(items@), order_of::<T>()),
{
    let out = merge_sorted_runs(items);
    proof {
        ranked_is_total_preorder::<T>();
        sorting_is_stable(views(items@), order_of::<T>());
        stable_sort_is_unique(
            views(items@),
            views(out@),
            stable_sorted(views(items@), order_of::<T>()),
            order_of::<T>(),
        );
    }
    out
}

/// `a` comes before `b` in the lexicographic order over the strict order `lt`,
/// or is `b`.
pub open spec fn lexicographic<A>(a: Seq<A>, b: Seq<A>, lt: spec_fn(A, A) -> bool) -> bool
    decreases a.len(),
{
    if a.len() == 0 {
        true
    } else if b.len() == 0 {
        false
    } else if lt(a[0], b[0]) {
        true
    } else {
        a[0] == b[0] && lexicographic(a.drop_first(), b.drop_first(), lt)
    }
}

/// `lt` is irreflexive, transitive, and relates any two different values.
pub open spec fn strict_total<A>(lt: spec_fn(A, A) -> bool) -> bool {
    &&& forall|a: A| !#[trigger] lt(a, a)
    &&& forall|a: A, b: A, c: A| #[trigger] lt(a, b) && #[trigger] lt(b, c) ==> lt(a, c)
    &&& forall|a: A, b: A| a != b ==> #[trigger] lt(a, b) || lt(b, a)
}

pub proof fn lexicographic_is_total<A>(a: Seq<A>, b: Seq<A>, lt: spec_fn(A, A) -> bool)
    requires
        strict_total(lt),
    ensures
        lexicographic(a, b, lt) || lexicographic(b, a, lt),
    decreases a.len(),
{
    if a.len() > 0 && b.len() > 0 {
        lexicographic_is_total(a.drop_first(), b.drop_first(), lt);
        assert(a[0] == b[0] || lt(a[0], b[0]) || lt(b[0], a[0]));
    }
}

pub proof fn lexicographic_is_transitive<A>(a: Seq<A>, b: Seq<A>, c: Seq<A>, lt: spec_fn(A, A) -> bool)
    requires
        strict_total(lt),
        lexicographic(a, b, lt),
        lexicographic(b, c, lt),
    ensures
        lexicographic(a, c, lt),
    decreases a.len(),
{
    if a.len() > 0 && b.len() > 0 && c.len() > 0 {
        if !lt(a[0], b[0]) && !lt(b[0], c[0]) {
            lexicographic_is_transitive(a.drop_first(), b.drop_first(), c.drop_first(), lt);
        } else if lt(a[0], b[0]) && lt(b[0], c[0]) {
            assert(lt(a[0], c[0]));
        }
    }
}

pub proof fn lexicographic_is_antisymmetric<A>(a: Seq<A>, b: Seq<A>, lt: spec_fn(A, A) -> bool)
    requires
        strict_total(lt),
        lexicographic(a, b, lt),
        lexicographic(b, a, lt),
    ensures
        a == b,
    decreases a.len(),
{
    if a.len() > 0 && b.len() > 0 {
        if lt(a[0], b[0]) {
            if lt(b[0], a[0]) {
                assert(lt(a[0], a[0]));
            }
            assert(!lt(b[0], a[0]) && a[0] != b[0]);
        }
        lexicographic_is_antisymmetric(a.drop_first(), b.drop_first(), lt);
        assert(a =~= seq![a[0]] + a.drop_first());
        assert(b =~= seq![b[0]] + b.drop_first());
    } else {
        assert(a =~= b);
    }
}

} // verus!
