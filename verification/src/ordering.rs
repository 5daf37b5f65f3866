//! A stable sort over any type with an order of its own.

use vstd::prelude::*;
use vstd::seq_lib::*;

verus! {

/// A type whose values are ordered, where different values may tie.
pub trait Ranked: View + Sized {
    /// Whether one value comes before another.
    spec fn before(a: Self::V, b: Self::V) -> bool;

    proof fn before_is_irreflexive(a: Self::V)
        ensures
            !Self::before(a, a),
    ;

    proof fn before_is_transitive(a: Self::V, b: Self::V, c: Self::V)
        requires
            Self::before(a, b),
            Self::before(b, c),
        ensures
            Self::before(a, c),
    ;

    proof fn before_separates(a: Self::V, b: Self::V, c: Self::V)
        requires
            Self::before(a, c),
        ensures
            Self::before(a, b) || Self::before(b, c),
    ;

    /// Whether this value comes before the other.
    fn comes_before(&self, other: &Self) -> (r: bool)
        ensures
            r == Self::before(self@, other@),
    ;
}

/// The views of a list of values.
pub open spec fn shown<T: View>(items: Seq<T>) -> Seq<T::V> {
    items.map_values(|item: T| item@)
}

/// Whether no value comes before one that stands in front of it.
pub open spec fn in_order<T: Ranked>(s: Seq<T::V>) -> bool {
    forall|i: int, j: int| 0 <= i < j < s.len() ==> !T::before(#[trigger] s[j], #[trigger] s[i])
}

/// Whether neither of two values comes before the other.
pub open spec fn tied<T: Ranked>(a: T::V, b: T::V) -> bool {
    !T::before(a, b) && !T::before(b, a)
}

/// The values that tie with `v`, as they follow each other.
pub open spec fn ties<T: Ranked>(s: Seq<T::V>, v: T::V) -> Seq<T::V> {
    s.filter(|w: T::V| tied::<T>(v, w))
}

/// Whether `to` holds the values of `from`, in order, and those that tie as they
/// followed each other in `from`.
pub open spec fn stably_sorted<T: Ranked>(from: Seq<T::V>, to: Seq<T::V>) -> bool {
    &&& in_order::<T>(to)
    &&& forall|v: T::V| #[trigger] ties::<T>(to, v) == ties::<T>(from, v)
    &&& to.to_multiset() == from.to_multiset()
}

proof fn lemma_filter_none<A>(s: Seq<A>, pred: spec_fn(A) -> bool)
    requires
        forall|i: int| 0 <= i < s.len() ==> !pred(#[trigger] s[i]),
    ensures
        s.filter(pred) == Seq::<A>::empty(),
    decreases s.len(),
{
    reveal(Seq::filter);
    if s.len() > 0 {
        assert(!pred(s[s.len() - 1]));
        lemma_filter_none(s.drop_last(), pred);
    }
}

proof fn lemma_filter_one<A>(x: A, pred: spec_fn(A) -> bool)
    ensures
        seq![x].filter(pred) == (if pred(x) {
            seq![x]
        } else {
            Seq::empty()
        }),
{
    reveal(Seq::filter);
    assert(seq![x].drop_last() =~= Seq::<A>::empty());
    assert(Seq::<A>::empty().filter(pred) =~= Seq::<A>::empty());
    assert(Seq::<A>::empty().push(x) =~= seq![x]);
}

proof fn lemma_ties_front<T: Ranked>(x: T::V, s: Seq<T::V>, v: T::V)
    ensures
        ties::<T>(seq![x] + s, v) == (if tied::<T>(v, x) {
            seq![x] + ties::<T>(s, v)
        } else {
            ties::<T>(s, v)
        }),
{
    let pred = |w: T::V| tied::<T>(v, w);
    Seq::filter_distributes_over_add(seq![x], s, pred);
    lemma_filter_one(x, pred);
    assert(Seq::<T::V>::empty() + s.filter(pred) =~= s.filter(pred));
}

/// Putting a value in front of the first that does not come before it.
proof fn lemma_put<T: Ranked>(s: Seq<T::V>, k: int, x: T::V, rest: Seq<T::V>)
    requires
        0 <= k <= s.len(),
        stably_sorted::<T>(rest, s),
        forall|j: int| 0 <= j < k ==> T::before(#[trigger] s[j], x),
        k < s.len() ==> !T::before(s[k], x),
    ensures
        stably_sorted::<T>(seq![x] + rest, s.insert(k, x)),
{
    let longer = s.insert(k, x);
    let front = s.take(k);
    let back = s.skip(k);
    assert forall|j: int| k <= j < s.len() implies !T::before(#[trigger] s[j], x) by {
        if j > k && T::before(s[j], x) {
            T::before_separates(s[j], s[k], x);
        }
    }
    assert forall|i: int, j: int| 0 <= i < j < longer.len() implies !T::before(
        #[trigger] longer[j],
        #[trigger] longer[i],
    ) by {
        let a = if i < k {
            i
        } else {
            i - 1
        };
        let b = if j < k {
            j
        } else {
            j - 1
        };
        if i != k {
            assert(longer[i] == s[a]);
        }
        if j != k {
            assert(longer[j] == s[b]);
        }
        if j == k && T::before(x, s[a]) {
            assert(T::before(s[a], x));
            T::before_is_transitive(x, s[a], x);
            T::before_is_irreflexive(x);
        }
    }
    assert(longer =~= front + (seq![x] + back));
    assert(s =~= front + back);
    assert forall|v: T::V| #[trigger] ties::<T>(longer, v) == ties::<T>(seq![x] + rest, v) by {
        let pred = |w: T::V| tied::<T>(v, w);
        Seq::filter_distributes_over_add(front, seq![x] + back, pred);
        Seq::filter_distributes_over_add(front, back, pred);
        lemma_ties_front::<T>(x, back, v);
        lemma_ties_front::<T>(x, rest, v);
        assert(ties::<T>(s, v) == ties::<T>(rest, v));
        if tied::<T>(v, x) {
            assert forall|j: int| 0 <= j < front.len() implies !pred(#[trigger] front[j]) by {
                assert(T::before(s[j], x));
                T::before_separates(s[j], v, x);
            }
            lemma_filter_none(front, pred);
            assert(ties::<T>(s, v) =~= ties::<T>(back, v));
            assert(ties::<T>(longer, v) =~= seq![x] + ties::<T>(back, v));
        } else {
            assert(ties::<T>(longer, v) =~= ties::<T>(s, v));
        }
    }
    to_multiset_insert(s, k, x);
    lemma_multiset_commutative(seq![x], rest);
    to_multiset_build(Seq::<T::V>::empty(), x);
    assert(Seq::<T::V>::empty().push(x) =~= seq![x]);
    Seq::<T::V>::empty().to_multiset_ensures();
    assert(longer.to_multiset() =~= (seq![x] + rest).to_multiset());
}

/// Sorts a list; values that tie keep their places among each other.
pub fn stable_sort<T: Ranked>(items: Vec<T>) -> (r: Vec<T>)
    ensures
        stably_sorted::<T>(shown(items@), shown(r@)),
{
    let ghost all = shown(items@);
    let mut left: Vec<T> = items;
    let mut r: Vec<T> = Vec::new();
    proof {
        assert(shown(r@) =~= Seq::<T::V>::empty());
        assert(all.skip(all.len() as int) =~= Seq::<T::V>::empty());
        assert(shown(left@) =~= all.take(all.len() as int));
    }
    while left.len() > 0
        invariant
            left@.len() <= all.len(),
            shown(left@) == all.take(left@.len() as int),
            stably_sorted::<T>(all.skip(left@.len() as int), shown(r@)),
        decreases left@.len(),
    {
        let ghost n = left@.len() as int;
        let ghost rest = all.skip(n);
        let ghost before = shown(r@);
        match left.pop() {
            Some(item) => {
                proof {
                    assert(shown(left@) =~= all.take(n - 1));
                    assert(all.take(n)[n - 1] == item@);
                    assert(all.skip(n - 1) =~= seq![item@] + rest);
                }
                let mut k: usize = 0;
                while k < r.len() && r[k].comes_before(&item)
                    invariant
                        k <= r@.len(),
                        before == shown(r@),
                        forall|j: int| 0 <= j < k ==> T::before(#[trigger] before[j], item@),
                    decreases r@.len() - k,
                {
                    k = k + 1;
                }
                proof {
                    lemma_put::<T>(before, k as int, item@, rest);
                }
                r.insert(k, item);
                assert(shown(r@) =~= before.insert(k as int, item@));
            },
            None => {},
        }
    }
    assert(all.skip(0) =~= all);
    r
}

proof fn lemma_filter_pulls_back<A>(s: Seq<A>, pred: spec_fn(A) -> bool, j: int) -> (i: int)
    requires
        0 <= j < s.filter(pred).len(),
    ensures
        0 <= i < s.len(),
        s[i] == s.filter(pred)[j],
        pred(s[i]),
    decreases s.len(),
{
    reveal(Seq::filter);
    if s.len() == 0 {
        0
    } else if j < s.drop_last().filter(pred).len() {
        lemma_filter_pulls_back(s.drop_last(), pred, j)
    } else {
        s.len() - 1
    }
}

/// Of two lists in order with the same ties, each with a value, the first values
/// are the same.
proof fn lemma_same_first<T: Ranked>(a: Seq<T::V>, b: Seq<T::V>)
    requires
        a.len() > 0,
        in_order::<T>(a),
        in_order::<T>(b),
        forall|v: T::V| #[trigger] ties::<T>(a, v) == ties::<T>(b, v),
    ensures
        b.len() > 0,
        a[0] == b[0],
{
    let x = a[0];
    T::before_is_irreflexive(x);
    assert(a =~= seq![x] + a.drop_first());
    lemma_ties_front::<T>(x, a.drop_first(), x);
    assert(ties::<T>(a, x)[0] == x);
    assert(ties::<T>(b, x).len() > 0);
    let j = lemma_filter_pulls_back(b, |w: T::V| tied::<T>(x, w), 0);
    let y = b[0];
    T::before_is_irreflexive(y);
    assert(b =~= seq![y] + b.drop_first());
    lemma_ties_front::<T>(y, b.drop_first(), y);
    assert(ties::<T>(a, y) == ties::<T>(b, y));
    let i = lemma_filter_pulls_back(a, |w: T::V| tied::<T>(y, w), 0);
    if T::before(x, y) {
        T::before_separates(x, b[j], y);
        if j > 0 {
            assert(!T::before(b[j], b[0]));
        }
        assert(false);
    }
    if T::before(y, x) {
        T::before_separates(y, a[i], x);
        if i > 0 {
            assert(!T::before(a[i], a[0]));
        }
        assert(false);
    }
    lemma_ties_front::<T>(y, b.drop_first(), x);
    assert(ties::<T>(b, x)[0] == y);
}

/// Two lists in order with the same ties are the same.
proof fn lemma_same_ties_same_list<T: Ranked>(a: Seq<T::V>, b: Seq<T::V>)
    requires
        in_order::<T>(a),
        in_order::<T>(b),
        forall|v: T::V| #[trigger] ties::<T>(a, v) == ties::<T>(b, v),
    ensures
        a == b,
    decreases a.len(),
{
    if a.len() == 0 {
        if b.len() > 0 {
            lemma_same_first::<T>(b, a);
        }
        assert(a =~= b);
    } else {
        lemma_same_first::<T>(a, b);
        let x = a[0];
        assert(a =~= seq![x] + a.drop_first());
        assert(b =~= seq![x] + b.drop_first());
        assert forall|v: T::V| #[trigger] ties::<T>(a.drop_first(), v) == ties::<T>(
            b.drop_first(),
            v,
        ) by {
            lemma_ties_front::<T>(x, a.drop_first(), v);
            lemma_ties_front::<T>(x, b.drop_first(), v);
            assert(ties::<T>(a, v) == ties::<T>(b, v));
            if tied::<T>(v, x) {
                assert(ties::<T>(a.drop_first(), v) =~= ties::<T>(a, v).drop_first());
                assert(ties::<T>(b.drop_first(), v) =~= ties::<T>(b, v).drop_first());
            }
        }
        lemma_same_ties_same_list::<T>(a.drop_first(), b.drop_first());
    }
}

/// A list has one stable sorting.
pub proof fn law_stable_sorting_is_unique<T: Ranked>(
    from: Seq<T::V>,
    one: Seq<T::V>,
    other: Seq<T::V>,
)
    requires
        stably_sorted::<T>(from, one),
        stably_sorted::<T>(from, other),
    ensures
        one == other,
{
    assert forall|v: T::V| #[trigger] ties::<T>(one, v) == ties::<T>(other, v) by {
        assert(ties::<T>(one, v) == ties::<T>(from, v));
        assert(ties::<T>(other, v) == ties::<T>(from, v));
    }
    lemma_same_ties_same_list::<T>(one, other);
}

/// A sorted list holds what the list held, as often as it did; nothing in it comes before
/// what stands in front of it; and what ties stands as it stood.
pub proof fn law_sorting_keeps_and_orders<T: Ranked>(from: Seq<T::V>, to: Seq<T::V>, v: T::V)
    requires
        stably_sorted::<T>(from, to),
    ensures
        to.len() == from.len(),
        to.to_multiset() == from.to_multiset(),
        forall|i: int, j: int|
            0 <= i < j < to.len() ==> !T::before(#[trigger] to[j], #[trigger] to[i]),
        to.filter(|w: T::V| !T::before(v, w) && !T::before(w, v)) == from.filter(
            |w: T::V| !T::before(v, w) && !T::before(w, v),
        ),
{
    to.to_multiset_ensures();
    from.to_multiset_ensures();
    assert((|w: T::V| !T::before(v, w) && !T::before(w, v)) =~= (|w: T::V| tied::<T>(v, w)));
    assert(ties::<T>(to, v) == ties::<T>(from, v));
}

/// A list is seen item by item.
pub proof fn law_list_is_seen_item_by_item<T: View>(items: Seq<T>)
    ensures
        shown(items).len() == items.len(),
        forall|i: int| 0 <= i < items.len() ==> #[trigger] shown(items)[i] == items[i]@,
{
}

} // verus!
