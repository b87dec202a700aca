//! Three-way comparators, read as mathematical orders.
//!
//! A comparator is a function object and may, as far as its contract goes,
//! answer one question in more than one way. What a function of this library
//! does with a comparator is therefore stated for every order that the
//! comparator computes: every `order` such that each answer that the
//! comparator can give on `(a, b)` is `order(a, b)`.

use std::cmp::Ordering;
use vstd::prelude::*;

verus! {

/// `compare` may be called on `a` and `b`, in this order.
pub open spec fn callable<T, F: FnMut(&T, &T) -> Ordering>(compare: F, a: T, b: T) -> bool {
    call_requires(compare, (&a, &b))
}

/// Whatever `compare` returns on `a` and `b`, in this order, is `order(a, b)`.
pub open spec fn computes<T, F: FnMut(&T, &T) -> Ordering>(
    compare: F,
    order: spec_fn(T, T) -> Ordering,
    a: T,
    b: T,
) -> bool {
    forall|o: Ordering| #[trigger] call_ensures(compare, (&a, &b), o) ==> o == order(a, b)
}

/// `compare` may be called on every two elements of `s`.
pub open spec fn callable_on<T, F: FnMut(&T, &T) -> Ordering>(compare: F, s: Seq<T>) -> bool {
    forall|i: int, j: int|
        0 <= i < s.len() && 0 <= j < s.len() ==> callable(compare, #[trigger] s[i], #[trigger] s[j])
}

/// `compare` computes `order` on every two elements of `s`.
pub open spec fn computes_on<T, F: FnMut(&T, &T) -> Ordering>(
    compare: F,
    order: spec_fn(T, T) -> Ordering,
    s: Seq<T>,
) -> bool {
    forall|i: int, j: int|
        0 <= i < s.len() && 0 <= j < s.len() ==> computes(
            compare,
            order,
            #[trigger] s[i],
            #[trigger] s[j],
        )
}

/// The answer with the operands exchanged.
pub open spec fn reversed(o: Ordering) -> Ordering {
    match o {
        Ordering::Less => Ordering::Greater,
        Ordering::Equal => Ordering::Equal,
        Ordering::Greater => Ordering::Less,
    }
}

/// Under `order`, `a` does not come after `b`.
pub open spec fn at_most<T>(order: spec_fn(T, T) -> Ordering, a: T, b: T) -> bool {
    order(a, b) != Ordering::Greater
}

/// Under `order`, `a` and `b` tie.
pub open spec fn ties<T>(order: spec_fn(T, T) -> Ordering, a: T, b: T) -> bool {
    order(a, b) == Ordering::Equal
}

/// On the elements of `s`, `order` is a consistent three-way order: exchanging
/// the operands reverses the answer, and "does not come after" is transitive.
/// Distinct elements may tie.
pub open spec fn consistent_on<T>(order: spec_fn(T, T) -> Ordering, s: Seq<T>) -> bool {
    &&& forall|i: int, j: int|
        0 <= i < s.len() && 0 <= j < s.len() ==> #[trigger] order(s[i], s[j]) == reversed(
            order(s[j], s[i]),
        )
    &&& forall|i: int, j: int, k: int|
        0 <= i < s.len() && 0 <= j < s.len() && 0 <= k < s.len() && #[trigger] at_most(
            order,
            s[i],
            s[j],
        ) && #[trigger] at_most(order, s[j], s[k]) ==> at_most(order, s[i], s[k])
}

/// `compare` sorts `s` by `order`: it may be called on every two elements of
/// `s`, computes `order` on them, and `order` is consistent on them.
pub open spec fn sorts_by<T, F: FnMut(&T, &T) -> Ordering>(
    compare: F,
    order: spec_fn(T, T) -> Ordering,
    s: Seq<T>,
) -> bool {
    &&& callable_on(compare, s)
    &&& computes_on(compare, order, s)
    &&& consistent_on(order, s)
}

/// No element of `s` comes after a later one.
pub open spec fn sorted<T>(order: spec_fn(T, T) -> Ordering, s: Seq<T>) -> bool {
    forall|i: int, j: int| 0 <= i < j < s.len() ==> at_most(order, #[trigger] s[i], #[trigger] s[j])
}

/// `after` is `before` rearranged, with `origin[k]` the place in `before` of
/// the element at place `k` of `after`, and elements that tie under `order`
/// stand in `after` in the order in which they stood in `before`.
pub open spec fn keeps_ties_in_order<T>(
    order: spec_fn(T, T) -> Ordering,
    before: Seq<T>,
    after: Seq<T>,
    origin: Seq<int>,
) -> bool {
    &&& origin.len() == after.len()
    &&& forall|k: int|
        0 <= k < after.len() ==> 0 <= #[trigger] origin[k] < before.len() && after[k]
            == before[origin[k]]
    &&& forall|i: int, j: int|
        0 <= i < j < after.len() ==> #[trigger] origin[i] != #[trigger] origin[j]
    &&& forall|i: int, j: int|
        0 <= i < j < after.len() && ties(order, after[i], after[j]) ==> #[trigger] origin[i]
            < #[trigger] origin[j]
}

/// `after` is `before` sorted by `order`: it holds the elements of `before`,
/// each as often as `before` does, none of them comes after a later one, and
/// those that tie have kept their order.
pub open spec fn sorted_permutation<T>(
    order: spec_fn(T, T) -> Ordering,
    before: Seq<T>,
    after: Seq<T>,
) -> bool {
    &&& after.to_multiset() == before.to_multiset()
    &&& sorted(order, after)
    &&& exists|origin: Seq<int>| keeps_ties_in_order(order, before, after, origin)
}

/// On the elements of `s`, only equal elements tie under `order`.
pub open spec fn ties_are_equal_on<T>(order: spec_fn(T, T) -> Ordering, s: Seq<T>) -> bool {
    forall|i: int, j: int|
        0 <= i < s.len() && 0 <= j < s.len() && #[trigger] ties(order, s[i], s[j]) ==> s[i] == s[j]
}

/// Under a consistent order in which only equal elements tie, a collection
/// has one sorted arrangement: two sorted sequences that hold the same
/// elements, each as often as the other, are equal.
pub proof fn lemma_sorted_is_unique<T>(order: spec_fn(T, T) -> Ordering, x: Seq<T>, y: Seq<T>)
    requires
        x.to_multiset() == y.to_multiset(),
        sorted(order, x),
        sorted(order, y),
        consistent_on(order, x),
        ties_are_equal_on(order, x),
    ensures
        x == y,
    decreases x.len(),
{
    broadcast use vstd::multiset::group_multiset_axioms;

    x.to_multiset_ensures();
    y.to_multiset_ensures();
    if x.len() == 0 {
        assert(x =~= y);
    } else {
        assert(x.to_multiset().count(y[0]) > 0);
        assert(y.to_multiset().count(x[0]) > 0);
        let i = choose|i: int| 0 <= i < x.len() && x[i] == y[0];
        let j = choose|j: int| 0 <= j < y.len() && y[j] == x[0];
        assert(at_most(order, x[0], x[i]));
        assert(at_most(order, y[0], y[j]));
        assert(order(x[0], x[i]) == reversed(order(x[i], x[0])));
        assert(ties(order, x[0], x[i]));
        assert(x[0] == y[0]);
        let xs = x.drop_first();
        let ys = y.drop_first();
        assert(xs =~= x.remove(0));
        assert(ys =~= y.remove(0));
        vstd::seq_lib::to_multiset_remove(x, 0);
        vstd::seq_lib::to_multiset_remove(y, 0);
        assert(xs.to_multiset() == ys.to_multiset());
        assert forall|a: int| 0 <= a < xs.len() implies #[trigger] xs[a] == x[a + 1] by {}
        assert(sorted(order, xs)) by {
            assert forall|a: int, b: int| 0 <= a < b < xs.len() implies at_most(
                order,
                #[trigger] xs[a],
                #[trigger] xs[b],
            ) by {
                assert(at_most(order, x[a + 1], x[b + 1]));
            }
        }
        assert(sorted(order, ys)) by {
            assert forall|a: int, b: int| 0 <= a < b < ys.len() implies at_most(
                order,
                #[trigger] ys[a],
                #[trigger] ys[b],
            ) by {
                assert(at_most(order, y[a + 1], y[b + 1]));
            }
        }
        assert(consistent_on(order, xs)) by {
            assert forall|a: int, b: int| 0 <= a < xs.len() && 0 <= b < xs.len() implies #[trigger] order(
                xs[a],
                xs[b],
            ) == reversed(order(xs[b], xs[a])) by {
                assert(order(x[a + 1], x[b + 1]) == reversed(order(x[b + 1], x[a + 1])));
            }
            assert forall|a: int, b: int, c: int|
                0 <= a < xs.len() && 0 <= b < xs.len() && 0 <= c < xs.len() && #[trigger] at_most(
                    order,
                    xs[a],
                    xs[b],
                ) && #[trigger] at_most(order, xs[b], xs[c]) implies at_most(order, xs[a], xs[c]) by {
                assert(at_most(order, x[a + 1], x[b + 1]));
                assert(at_most(order, x[b + 1], x[c + 1]));
            }
        }
        assert(ties_are_equal_on(order, xs)) by {
            assert forall|a: int, b: int|
                0 <= a < xs.len() && 0 <= b < xs.len() && #[trigger] ties(
                    order,
                    xs[a],
                    xs[b],
                ) implies xs[a] == xs[b] by {
                assert(ties(order, x[a + 1], x[b + 1]));
            }
        }
        lemma_sorted_is_unique(order, xs, ys);
        assert(x =~= seq![x[0]] + xs);
        assert(y =~= seq![y[0]] + ys);
    }
}

} // verus!
