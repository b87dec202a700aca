//! Folding, and order statistics: the middle of a slice and its quartiles.

use crate::order::{
    at_most, callable, callable_on, computes, computes_on, consistent_on, lemma_sorted_is_unique,
    reversed, sorted_permutation, sorts_by, ties_are_equal_on,
};
use std::cmp::Ordering;
use vstd::prelude::*;
use vstd::std_specs::iter::IteratorSpec;

verus! {

/// Folding `s` from the left with `f`, starting from `init`, can end in `out`:
/// each call of `f` is handed what the call before it returned.
pub open spec fn reduces_to<U, T, F: FnMut(U, T) -> U>(f: F, init: U, s: Seq<T>, out: U) -> bool
    decreases s.len(),
{
    if s.len() == 0 {
        out == init
    } else {
        exists|acc: U|
            {
                &&& reduces_to(f, init, s.drop_last(), acc)
                &&& #[trigger] call_ensures(f, (acc, s.last()), out)
            }
    }
}

/// Folds the values that `values` yields into `init`, one call of `f` for
/// each, in the order in which they come.
///
/// `f` takes the accumulator and the next value and returns the new
/// accumulator. It must accept every accumulator that the fold can reach
/// together with the value that follows.
pub fn reduce<U, T, I, F>(values: I, init: U, f: F) -> (out: U) where
    I: Iterator<Item = T>,
    F: FnMut(U, T) -> U,

    requires
        values.obeys_prophetic_iter_laws(),
        values.decrease() is Some,
        forall|k: int, acc: U|
            0 <= k < values.remaining().len() && reduces_to(f, init, values.remaining().take(k), acc)
                ==> #[trigger] call_requires(f, (acc, values.remaining()[k])),
    ensures
        reduces_to(f, init, values.remaining(), out),
{
    let ghost all = values.remaining();
    let ghost fold = f;
    let mut values = values;
    let mut f = f;
    let ghost mut seen: Seq<T> = Seq::empty();
    let mut output = init;
    loop
        invariant
            values.obeys_prophetic_iter_laws(),
            values.decrease() is Some,
            all == seen + values.remaining(),
            f == fold,
            reduces_to(f, init, seen, output),
            forall|k: int, acc: U|
                0 <= k < all.len() && reduces_to(f, init, all.take(k), acc)
                    ==> #[trigger] call_requires(f, (acc, all[k])),
        ensures
            reduces_to(f, init, all, output),
        decreases values.decrease()->0,
    {
        match values.next() {
            Some(value) => {
                let ghost longer = seen.push(value);
                let ghost before = output;
                proof {
                    assert(longer.drop_last() == seen);
                    assert(all.take(seen.len() as int) == seen);
                    assert(all[seen.len() as int] == value);
                }
                output = f(output, value);
                proof {
                    assert(call_ensures(f, (before, longer.last()), output));
                    seen = longer;
                }
            },
            None => {
                assert(seen == all);
                break ;
            },
        }
    }
    output
}

/// The element at the upper middle of `s`: the middle one where the length is
/// odd, the later of the two middle ones where it is even.
pub open spec fn upper_middle<T>(s: Seq<T>) -> T {
    s[(s.len() / 2) as int]
}

/// The element just before the upper middle, where the length of `s` is even.
pub open spec fn lower_middle<T>(s: Seq<T>) -> Option<T> {
    if s.len() % 2 == 0 {
        Some(s[s.len() / 2 - 1])
    } else {
        None
    }
}

/// What `combine` is handed for `s`: the upper middle first, then the lower
/// middle if there is one.
pub open spec fn middle_pair<'a, T>(s: Seq<T>) -> (&'a T, Option<&'a T>) {
    (
        &upper_middle(s),
        match lower_middle(s) {
            Some(lower) => Some(&lower),
            None => None,
        },
    )
}

/// The lower half of a sorted `s`; for an odd length it includes the middle
/// element.
pub open spec fn lower_half<T>(s: Seq<T>) -> Seq<T> {
    if s.len() % 2 == 1 {
        s.take((s.len() / 2 + 1) as int)
    } else {
        s.take((s.len() / 2) as int)
    }
}

/// The upper half of a sorted `s`; for an odd length it includes the middle
/// element too.
pub open spec fn upper_half<T>(s: Seq<T>) -> Seq<T> {
    s.skip((s.len() / 2) as int)
}

/// The middle of `values`, as `combine` makes it from the one or two middle
/// elements; `None` for an empty slice.
///
/// `combine` gets the upper middle element first and, for an even length, the
/// lower middle element second.
pub fn middle<T, O, U>(values: &[T], combine: U) -> (out: Option<O>) where
    U: FnOnce(&T, Option<&T>) -> O,

    requires
        values@.len() > 0 ==> call_requires(combine, middle_pair(values@)),
    ensures
        out is None <==> values@.len() == 0,
        out matches Some(o) ==> call_ensures(combine, middle_pair(values@), o),
{
    let len = values.len();
    if len == 0 {
        None
    } else if len % 2 == 1 {
        let middle = len / 2;
        let output = combine(&values[middle], None);
        Some(output)
    } else {
        let middle1 = len / 2;
        let middle2 = middle1 - 1;
        let output = combine(&values[middle1], Some(&values[middle2]));
        Some(output)
    }
}

/// `combine` may be called on the middle of `s` and on the middles of its two
/// halves.
pub open spec fn combines<T, O, U: FnMut(&T, Option<&T>) -> O>(combine: U, s: Seq<T>) -> bool {
    s.len() > 0 ==> {
        &&& call_requires(combine, middle_pair(lower_half(s)))
        &&& call_requires(combine, middle_pair(s))
        &&& call_requires(combine, middle_pair(upper_half(s)))
    }
}

/// `q` holds what `combine` makes of the middle of the lower half of `s`, of
/// the middle of `s`, and of the middle of its upper half.
pub open spec fn quartiles_of<T, O, U: FnMut(&T, Option<&T>) -> O>(
    combine: U,
    s: Seq<T>,
    q: [O; 3],
) -> bool {
    &&& call_ensures(combine, middle_pair(lower_half(s)), q[0])
    &&& call_ensures(combine, middle_pair(s), q[1])
    &&& call_ensures(combine, middle_pair(upper_half(s)), q[2])
}

/// `<[T]>::sort_by`: where `compare` computes a consistent order on the
/// elements, the slice afterwards holds the same elements, each as often as
/// before, and under each such order none of them comes after a later one
/// and those that tie have kept their order.
#[verifier::external_body]
fn sort_by<T, F: FnMut(&T, &T) -> Ordering>(values: &mut [T], compare: F)
    requires
        exists|order: spec_fn(T, T) -> Ordering| sorts_by(compare, order, old(values)@),
    ensures
        final(values)@.to_multiset() == old(values)@.to_multiset(),
        forall|order: spec_fn(T, T) -> Ordering| #[trigger]
            sorts_by(compare, order, old(values)@) ==> sorted_permutation(
                order,
                old(values)@,
                final(values)@,
            ),
{
    values.sort_by(compare)
}

/// Sorts `values` by `compare` and returns the lower quartile, the median and
/// the upper quartile, each as `combine` makes it from the one or two middle
/// elements of its part; `None` for an empty slice.
///
/// For an odd length both halves include the middle element; for an even
/// length the halves do not overlap. `compare` must compute a consistent
/// order on the elements, and `combine` must accept the middles of whatever
/// that order makes of them.
pub fn quartiles<T, O, F, U>(values: &mut [T], compare: F, combine: U) -> (out: Option<[O; 3]>) where
    F: FnMut(&T, &T) -> Ordering,
    U: FnMut(&T, Option<&T>) -> O,

    requires
        exists|order: spec_fn(T, T) -> Ordering| sorts_by(compare, order, old(values)@),
        forall|order: spec_fn(T, T) -> Ordering, s: Seq<T>|
            sorts_by(compare, order, old(values)@) && #[trigger] sorted_permutation(
                order,
                old(values)@,
                s,
            ) ==> combines(combine, s),
    ensures
        final(values)@.to_multiset() == old(values)@.to_multiset(),
        forall|order: spec_fn(T, T) -> Ordering| #[trigger]
            sorts_by(compare, order, old(values)@) ==> sorted_permutation(
                order,
                old(values)@,
                final(values)@,
            ),
        out is None <==> old(values)@.len() == 0,
        out matches Some(q) ==> quartiles_of(combine, final(values)@, q),
{
    let mut combine = combine;
    sort_by(values, compare);
    proof {
        values@.to_multiset_ensures();
        old(values)@.to_multiset_ensures();
        let order = choose|order: spec_fn(T, T) -> Ordering| sorts_by(compare, order, old(values)@);
        assert(sorted_permutation(order, old(values)@, values@));
        assert(combines(combine, values@));
    }
    let median = middle(values, &mut combine)?;
    let len = values.len();
    if len % 2 == 1 {
        let left = &values[0..(len / 2 + 1)];
        let right = &values[(len / 2)..len];
        let left_med = middle(left, &mut combine)?;
        let right_med = middle(right, &mut combine)?;
        Some([left_med, median, right_med])
    } else {
        let left = &values[0..(len / 2)];
        let right = &values[(len / 2)..len];
        let left_med = middle(left, &mut combine)?;
        let right_med = middle(right, &mut combine)?;
        Some([left_med, median, right_med])
    }
}

/// The quartiles do not depend on the order in which the values come: where
/// only equal values tie under a consistent order, two slices that hold the
/// same values, each as often as the other, hold the same sequence once each
/// is sorted, so that `combine` is handed the same middles for both, and what
/// it can make of the one it can make of the other.
pub proof fn lemma_quartiles_reordered<T, O, U: FnMut(&T, Option<&T>) -> O>(
    order: spec_fn(T, T) -> Ordering,
    combine: U,
    first: Seq<T>,
    first_sorted: Seq<T>,
    second: Seq<T>,
    second_sorted: Seq<T>,
    q: [O; 3],
)
    requires
        first.to_multiset() == second.to_multiset(),
        sorted_permutation(order, first, first_sorted),
        sorted_permutation(order, second, second_sorted),
        consistent_on(order, first_sorted),
        ties_are_equal_on(order, first_sorted),
    ensures
        first_sorted == second_sorted,
        quartiles_of(combine, first_sorted, q) <==> quartiles_of(combine, second_sorted, q),
{
    lemma_sorted_is_unique(order, first_sorted, second_sorted);
}

/// The least element of `s` under `order`; of several that tie for it, the
/// first. `None` for an empty `s`.
///
/// Each further element is held against the least one so far, which is the
/// first operand, and replaces it only where that one comes after it.
pub open spec fn least<T>(order: spec_fn(T, T) -> Ordering, s: Seq<T>) -> Option<T>
    decreases s.len(),
{
    if s.len() == 0 {
        None
    } else {
        match least(order, s.drop_last()) {
            None => Some(s.last()),
            Some(best) => if order(best, s.last()) == Ordering::Greater {
                Some(s.last())
            } else {
                Some(best)
            },
        }
    }
}

/// The greatest element of `s` under `order`; of several that tie for it, the
/// last. `None` for an empty `s`.
///
/// Each further element is held against the greatest one so far, which is the
/// first operand, and replaces it unless that one comes after it.
pub open spec fn greatest<T>(order: spec_fn(T, T) -> Ordering, s: Seq<T>) -> Option<T>
    decreases s.len(),
{
    if s.len() == 0 {
        None
    } else {
        match greatest(order, s.drop_last()) {
            None => Some(s.last()),
            Some(best) => if order(best, s.last()) == Ordering::Greater {
                Some(best)
            } else {
                Some(s.last())
            },
        }
    }
}

/// A place in `s`, which is not empty, of its least element.
pub proof fn lemma_least_place<T>(order: spec_fn(T, T) -> Ordering, s: Seq<T>) -> (place: int)
    requires
        s.len() > 0,
    ensures
        0 <= place < s.len(),
        least(order, s) == Some(s[place]),
    decreases s.len(),
{
    if s.len() == 1 {
        assert(s.drop_last().len() == 0);
        assert(least(order, s.drop_last()) == None::<T>);
        0
    } else {
        let front = s.drop_last();
        let before = lemma_least_place(order, front);
        assert(front[before] == s[before]);
        if least(order, s) == Some(s.last()) {
            s.len() - 1
        } else {
            before
        }
    }
}

/// A place in `s`, which is not empty, of its greatest element.
pub proof fn lemma_greatest_place<T>(order: spec_fn(T, T) -> Ordering, s: Seq<T>) -> (place: int)
    requires
        s.len() > 0,
    ensures
        0 <= place < s.len(),
        greatest(order, s) == Some(s[place]),
    decreases s.len(),
{
    if s.len() == 1 {
        assert(s.drop_last().len() == 0);
        assert(greatest(order, s.drop_last()) == None::<T>);
        0
    } else {
        let front = s.drop_last();
        let before = lemma_greatest_place(order, front);
        assert(front[before] == s[before]);
        if greatest(order, s) == Some(s.last()) {
            s.len() - 1
        } else {
            before
        }
    }
}

/// Under an order that is consistent on the elements of `s`, the least
/// element of `s` comes after none of them.
pub proof fn lemma_least_is_least<T>(order: spec_fn(T, T) -> Ordering, s: Seq<T>)
    requires
        s.len() > 0,
        consistent_on(order, s),
    ensures
        forall|i: int| 0 <= i < s.len() ==> at_most(order, least(order, s)->0, #[trigger] s[i]),
    decreases s.len(),
{
    let end = s.len() - 1;
    let place = lemma_least_place(order, s);
    assert(order(s[end], s[end]) == reversed(order(s[end], s[end])));
    if s.len() > 1 {
        let front = s.drop_last();
        assert forall|i: int| 0 <= i < front.len() implies #[trigger] front[i] == s[i] by {}
        lemma_consistent_front(order, s);
        lemma_least_is_least(order, front);
        let before = lemma_least_place(order, front);
        assert forall|i: int| 0 <= i < s.len() implies at_most(
            order,
            least(order, s)->0,
            #[trigger] s[i],
        ) by {
            if order(s[before], s[end]) == Ordering::Greater {
                assert(order(s[end], s[before]) == reversed(order(s[before], s[end])));
                assert(at_most(order, s[end], s[before]));
                if i < end {
                    assert(at_most(order, front[before], front[i]));
                    assert(at_most(order, s[before], s[i]));
                }
            } else {
                if i < end {
                    assert(at_most(order, front[before], front[i]));
                }
            }
        }
    }
}

/// Under an order that is consistent on the elements of `s`, none of them
/// comes after the greatest element of `s`.
pub proof fn lemma_greatest_is_greatest<T>(order: spec_fn(T, T) -> Ordering, s: Seq<T>)
    requires
        s.len() > 0,
        consistent_on(order, s),
    ensures
        forall|i: int| 0 <= i < s.len() ==> at_most(order, #[trigger] s[i], greatest(order, s)->0),
    decreases s.len(),
{
    let end = s.len() - 1;
    let place = lemma_greatest_place(order, s);
    assert(order(s[end], s[end]) == reversed(order(s[end], s[end])));
    if s.len() > 1 {
        let front = s.drop_last();
        assert forall|i: int| 0 <= i < front.len() implies #[trigger] front[i] == s[i] by {}
        lemma_consistent_front(order, s);
        lemma_greatest_is_greatest(order, front);
        let before = lemma_greatest_place(order, front);
        assert forall|i: int| 0 <= i < s.len() implies at_most(
            order,
            #[trigger] s[i],
            greatest(order, s)->0,
        ) by {
            if order(s[before], s[end]) == Ordering::Greater {
                assert(order(s[end], s[before]) == reversed(order(s[before], s[end])));
                assert(at_most(order, s[end], s[before]));
                if i < end {
                    assert(at_most(order, front[i], front[before]));
                }
            } else {
                assert(at_most(order, s[before], s[end]));
                if i < end {
                    assert(at_most(order, front[i], front[before]));
                    assert(at_most(order, s[i], s[before]));
                }
            }
        }
    }
}

/// An order that is consistent on the elements of `s` is consistent on all
/// but the last of them.
proof fn lemma_consistent_front<T>(order: spec_fn(T, T) -> Ordering, s: Seq<T>)
    requires
        s.len() > 0,
        consistent_on(order, s),
    ensures
        consistent_on(order, s.drop_last()),
{
    let front = s.drop_last();
    assert forall|i: int, j: int| 0 <= i < front.len() && 0 <= j < front.len() implies #[trigger] order(
        front[i],
        front[j],
    ) == reversed(order(front[j], front[i])) by {
        assert(order(s[i], s[j]) == reversed(order(s[j], s[i])));
    }
    assert forall|i: int, j: int, k: int|
        0 <= i < front.len() && 0 <= j < front.len() && 0 <= k < front.len() && #[trigger] at_most(
            order,
            front[i],
            front[j],
        ) && #[trigger] at_most(order, front[j], front[k]) implies at_most(
        order,
        front[i],
        front[k],
    ) by {
        assert(at_most(order, s[i], s[j]));
        assert(at_most(order, s[j], s[k]));
    }
}

/// One more element held against the least one so far.
proof fn lemma_least_grows<T>(order: spec_fn(T, T) -> Ordering, s: Seq<T>, n: int)
    requires
        1 <= n < s.len(),
    ensures
        least(order, s.take(n + 1)) == match least(order, s.take(n)) {
            None => Some(s[n]),
            Some(best) => if order(best, s[n]) == Ordering::Greater {
                Some(s[n])
            } else {
                Some(best)
            },
        },
{
    assert(s.take(n + 1).drop_last() == s.take(n));
}

/// One more element held against the greatest one so far.
proof fn lemma_greatest_grows<T>(order: spec_fn(T, T) -> Ordering, s: Seq<T>, n: int)
    requires
        1 <= n < s.len(),
    ensures
        greatest(order, s.take(n + 1)) == match greatest(order, s.take(n)) {
            None => Some(s[n]),
            Some(best) => if order(best, s[n]) == Ordering::Greater {
                Some(best)
            } else {
                Some(s[n])
            },
        },
{
    assert(s.take(n + 1).drop_last() == s.take(n));
}

/// The least element of `values` under the order that `compare` computes; of
/// several that tie for it, the first. `None` for an empty slice.
pub fn min_by<T: Copy, F: FnMut(&T, &T) -> Ordering>(values: &[T], compare: &mut F) -> (out: Option<
    T,
>)
    requires
        callable_on(*old(compare), values@),
    ensures
        *final(compare) == *old(compare),
        out is None <==> values@.len() == 0,
        forall|order: spec_fn(T, T) -> Ordering| #[trigger]
            computes_on(*old(compare), order, values@) ==> out == least(order, values@),
{
    if values.len() == 0 {
        return None;
    }
    let ghost judge = *compare;
    let ghost mut done: int = 1;
    let ghost mut place: int = 0;
    let mut best: T = values[0];
    let mut at: usize = 1;
    proof {
        assert forall|order: spec_fn(T, T) -> Ordering|
            computes_on(judge, order, values@) implies least(order, values@.take(1)) == Some(
            best,
        ) by {
            let first = lemma_least_place(order, values@.take(1));
        }
    }
    while at < values.len()
        invariant
            1 <= at <= values@.len(),
            done == at,
            *compare == judge,
            callable_on(judge, values@),
            0 <= place < done,
            values@[place] == best,
            forall|order: spec_fn(T, T) -> Ordering| #[trigger]
                computes_on(judge, order, values@) ==> least(order, values@.take(done)) == Some(
                    best,
                ),
        decreases values@.len() - at,
    {
        let ghost before = best;
        assert(callable(judge, values@[place], values@[done]));
        let verdict = compare(&best, &values[at]);
        match verdict {
            Ordering::Greater => {
                best = values[at];
            },
            _ => {},
        }
        proof {
            assert forall|order: spec_fn(T, T) -> Ordering|
                computes_on(judge, order, values@) implies least(order, values@.take(done + 1))
                == Some(best) by {
                assert(computes(judge, order, values@[place], values@[done]));
                assert(order(before, values@[done]) == verdict);
                lemma_least_grows(order, values@, done);
            }
            if verdict == Ordering::Greater {
                place = done;
            }
            done = done + 1;
        }
        at += 1;
    }
    assert(values@.take(done) == values@);
    Some(best)
}

/// The greatest element of `values` under the order that `compare` computes;
/// of several that tie for it, the last. `None` for an empty slice.
pub fn max_by<T: Copy, F: FnMut(&T, &T) -> Ordering>(values: &[T], compare: &mut F) -> (out: Option<
    T,
>)
    requires
        callable_on(*old(compare), values@),
    ensures
        *final(compare) == *old(compare),
        out is None <==> values@.len() == 0,
        forall|order: spec_fn(T, T) -> Ordering| #[trigger]
            computes_on(*old(compare), order, values@) ==> out == greatest(order, values@),
{
    if values.len() == 0 {
        return None;
    }
    let ghost judge = *compare;
    let ghost mut done: int = 1;
    let ghost mut place: int = 0;
    let mut best: T = values[0];
    let mut at: usize = 1;
    proof {
        assert forall|order: spec_fn(T, T) -> Ordering|
            computes_on(judge, order, values@) implies greatest(order, values@.take(1)) == Some(
            best,
        ) by {
            let first = lemma_greatest_place(order, values@.take(1));
        }
    }
    while at < values.len()
        invariant
            1 <= at <= values@.len(),
            done == at,
            *compare == judge,
            callable_on(judge, values@),
            0 <= place < done,
            values@[place] == best,
            forall|order: spec_fn(T, T) -> Ordering| #[trigger]
                computes_on(judge, order, values@) ==> greatest(order, values@.take(done)) == Some(
                    best,
                ),
        decreases values@.len() - at,
    {
        let ghost before = best;
        assert(callable(judge, values@[place], values@[done]));
        let verdict = compare(&best, &values[at]);
        match verdict {
            Ordering::Greater => {},
            _ => {
                best = values[at];
            },
        }
        proof {
            assert forall|order: spec_fn(T, T) -> Ordering|
                computes_on(judge, order, values@) implies greatest(order, values@.take(done + 1))
                == Some(best) by {
                assert(computes(judge, order, values@[place], values@[done]));
                assert(order(before, values@[done]) == verdict);
                lemma_greatest_grows(order, values@, done);
            }
            if verdict != Ordering::Greater {
                place = done;
            }
            done = done + 1;
        }
        at += 1;
    }
    assert(values@.take(done) == values@);
    Some(best)
}

} // verus!
