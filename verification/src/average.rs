//! Numeric kinds and the accumulations built on them: mean, sample variance
//! and the fixed-width moving average.

use std::collections::VecDeque;
use vstd::prelude::*;
use vstd::seq_lib::{commutative_foldl, lemma_fold_left_permutation};
use vstd::std_specs::iter::IteratorSpec;

verus! {

/// A numeric kind: the four operations that mean and variance are built from.
///
/// Each operation comes with a `*_defined` predicate saying on which operands
/// the kind can carry it out (for a machine integer: without overflow and
/// without dividing by zero) and a `*_value` function saying what it yields
/// there. A kind that is implemented in unverified code states both as
/// ordinary functions.
pub trait Average: Sized {
    /// The additive identity.
    spec fn zero_value() -> Self;

    /// Whether `v` can be accumulated onto `acc`.
    spec fn add_defined(acc: Self, v: Self) -> bool;

    /// `acc` after accumulating `v`.
    spec fn add_value(acc: Self, v: Self) -> Self;

    /// Whether `acc` can be divided by `count`.
    spec fn divide_defined(acc: Self, count: u32) -> bool;

    /// `acc` divided by `count`.
    spec fn divide_value(acc: Self, count: u32) -> Self;

    /// Whether the squared difference of `a` and `b` can be formed.
    spec fn diff_sqrd_defined(a: Self, b: Self) -> bool;

    /// The square of `a - b`.
    spec fn diff_sqrd_value(a: Self, b: Self) -> Self;

    /// The additive identity.
    fn zero() -> (z: Self)
        ensures
            z == Self::zero_value(),
    ;

    /// Accumulates `b` onto `self`.
    fn add(&mut self, b: Self)
        requires
            Self::add_defined(*old(self), b),
        ensures
            *final(self) == Self::add_value(*old(self), b),
    ;

    /// Divides `self` by `count`.
    fn divide(&mut self, count: u32)
        requires
            Self::divide_defined(*old(self), count),
        ensures
            *final(self) == Self::divide_value(*old(self), count),
    ;

    /// The square of the difference of `self` and `b`.
    fn diff_sqrd(&self, b: &Self) -> (d: Self)
        requires
            Self::diff_sqrd_defined(*self, *b),
        ensures
            d == Self::diff_sqrd_value(*self, *b),
    ;
}

/// The elements of `s` accumulated from the left onto the additive identity.
pub open spec fn sum_value<K: Average>(s: Seq<K>) -> K
    decreases s.len(),
{
    if s.len() == 0 {
        K::zero_value()
    } else {
        K::add_value(sum_value(s.drop_last()), s.last())
    }
}

/// Every accumulation step of `sum_value(s)` is defined.
pub open spec fn sum_defined<K: Average>(s: Seq<K>) -> bool
    decreases s.len(),
{
    s.len() == 0 || (sum_defined(s.drop_last()) && K::add_defined(
        sum_value(s.drop_last()),
        s.last(),
    ))
}

/// The mean of `s`: its sum divided by its length.
pub open spec fn mean_value<K: Average>(s: Seq<K>) -> K {
    K::divide_value(sum_value(s), s.len() as u32)
}

/// The mean of `s` can be computed: the count fits the divisor's type, the
/// sum is defined and so is its division by the count.
pub open spec fn mean_defined<K: Average>(s: Seq<K>) -> bool {
    &&& s.len() <= u32::MAX
    &&& sum_defined(s)
    &&& K::divide_defined(sum_value(s), s.len() as u32)
}

/// The squared differences of the elements of `s` from `center`, accumulated
/// from the left.
pub open spec fn sq_sum_value<K: Average>(center: K, s: Seq<K>) -> K
    decreases s.len(),
{
    if s.len() == 0 {
        K::zero_value()
    } else {
        K::add_value(sq_sum_value(center, s.drop_last()), K::diff_sqrd_value(s.last(), center))
    }
}

/// Every step of `sq_sum_value(center, s)` is defined.
pub open spec fn sq_sum_defined<K: Average>(center: K, s: Seq<K>) -> bool
    decreases s.len(),
{
    s.len() == 0 || {
        &&& sq_sum_defined(center, s.drop_last())
        &&& K::diff_sqrd_defined(s.last(), center)
        &&& K::add_defined(
            sq_sum_value(center, s.drop_last()),
            K::diff_sqrd_value(s.last(), center),
        )
    }
}

/// The sample variance of `s` around `center`: the summed squared differences
/// divided by one less than the count, and the additive identity where that
/// divisor would be zero or less.
pub open spec fn variance_value<K: Average>(center: K, s: Seq<K>) -> K {
    if s.len() <= 1 {
        K::zero_value()
    } else {
        K::divide_value(sq_sum_value(center, s), (s.len() - 1) as u32)
    }
}

/// The sample variance of `s` around `center` can be computed.
pub open spec fn variance_defined<K: Average>(center: K, s: Seq<K>) -> bool {
    &&& s.len() <= u32::MAX
    &&& sq_sum_defined(center, s)
    &&& s.len() >= 2 ==> K::divide_defined(sq_sum_value(center, s), (s.len() - 1) as u32)
}

/// A sum that is defined is defined on every prefix.
pub proof fn lemma_sum_defined_prefix<K: Average>(s: Seq<K>, n: int)
    requires
        sum_defined(s),
        0 <= n <= s.len(),
    ensures
        sum_defined(s.take(n)),
    decreases s.len(),
{
    if n < s.len() {
        lemma_sum_defined_prefix(s.drop_last(), n);
        assert(s.drop_last().take(n) == s.take(n));
    } else {
        assert(s.take(n) == s);
    }
}

/// A sum of squared differences that is defined is defined on every prefix.
pub proof fn lemma_sq_sum_defined_prefix<K: Average>(center: K, s: Seq<K>, n: int)
    requires
        sq_sum_defined(center, s),
        0 <= n <= s.len(),
    ensures
        sq_sum_defined(center, s.take(n)),
    decreases s.len(),
{
    if n < s.len() {
        lemma_sq_sum_defined_prefix(center, s.drop_last(), n);
        assert(s.drop_last().take(n) == s.take(n));
    } else {
        assert(s.take(n) == s);
    }
}

/// The mean of the values that `values` yields.
///
/// The sequence must be one whose mean the kind can compute: for `i64` it is
/// not empty and no running sum leaves the range of the type.
pub fn average<K: Average, I: Iterator<Item = K>>(values: I) -> (mean: K)
    requires
        values.obeys_prophetic_iter_laws(),
        values.decrease() is Some,
        mean_defined(values.remaining()),
    ensures
        mean == mean_value(values.remaining()),
{
    let mut values = values;
    let ghost all = values.remaining();
    let ghost mut seen: Seq<K> = Seq::empty();
    let mut total = K::zero();
    let mut count: u32 = 0;
    loop
        invariant
            values.obeys_prophetic_iter_laws(),
            values.decrease() is Some,
            all == seen + values.remaining(),
            mean_defined(all),
            count == seen.len(),
            total == sum_value(seen),
        ensures
            seen == all,
            count == all.len(),
            total == sum_value(all),
        decreases values.decrease()->0,
    {
        match values.next() {
            Some(value) => {
                proof {
                    let longer = seen.push(value);
                    assert(longer.drop_last() == seen);
                    assert(all.take(longer.len() as int) == longer);
                    lemma_sum_defined_prefix(all, longer.len() as int);
                    seen = longer;
                }
                total.add(value);
                count += 1;
            },
            None => {
                assert(seen == all);
                break ;
            },
        }
    }
    total.divide(count);
    total
}

/// The sample variance, around `average`, of the values that `values` yields:
/// the summed squared differences divided by one less than their count, and
/// the additive identity for fewer than two values.
pub fn variance<K: Average, I: Iterator<Item = K>>(average: &K, values: I) -> (spread: K)
    requires
        values.obeys_prophetic_iter_laws(),
        values.decrease() is Some,
        variance_defined(*average, values.remaining()),
    ensures
        spread == variance_value(*average, values.remaining()),
{
    let mut values = values;
    let ghost all = values.remaining();
    let ghost mut seen: Seq<K> = Seq::empty();
    let mut total = K::zero();
    let mut count: u32 = 0;
    loop
        invariant
            values.obeys_prophetic_iter_laws(),
            values.decrease() is Some,
            all == seen + values.remaining(),
            variance_defined(*average, all),
            count == seen.len(),
            total == sq_sum_value(*average, seen),
        ensures
            seen == all,
            count == all.len(),
            total == sq_sum_value(*average, all),
        decreases values.decrease()->0,
    {
        match values.next() {
            Some(value) => {
                proof {
                    let longer = seen.push(value);
                    assert(longer.drop_last() == seen);
                    assert(all.take(longer.len() as int) == longer);
                    lemma_sq_sum_defined_prefix(*average, all, longer.len() as int);
                    seen = longer;
                }
                total.add(value.diff_sqrd(average));
                count += 1;
            },
            None => {
                assert(seen == all);
                break ;
            },
        }
    }
    if count >= 2 {
        total.divide(count - 1);
        total
    } else {
        K::zero()
    }
}

/// The mean of the elements of `values`, as `average` computes it for the
/// values of an iterator.
pub fn average_of<K: Average + Copy>(values: &[K]) -> (mean: K)
    requires
        mean_defined(values@),
    ensures
        mean == mean_value(values@),
{
    let mut total = K::zero();
    let mut count: u32 = 0;
    let mut at: usize = 0;
    while at < values.len()
        invariant
            mean_defined(values@),
            at <= values@.len(),
            count == at,
            total == sum_value(values@.take(at as int)),
        decreases values@.len() - at,
    {
        proof {
            lemma_sum_defined_prefix(values@, at + 1);
            assert(values@.take(at + 1).drop_last() == values@.take(at as int));
        }
        total.add(values[at]);
        count += 1;
        at += 1;
    }
    assert(values@.take(at as int) == values@);
    total.divide(count);
    total
}

/// The sample variance of the elements of `values` around `average`, as
/// `variance` computes it for the values of an iterator.
pub fn variance_of<K: Average + Copy>(average: &K, values: &[K]) -> (spread: K)
    requires
        variance_defined(*average, values@),
    ensures
        spread == variance_value(*average, values@),
{
    let mut total = K::zero();
    let mut count: u32 = 0;
    let mut at: usize = 0;
    while at < values.len()
        invariant
            variance_defined(*average, values@),
            at <= values@.len(),
            count == at,
            total == sq_sum_value(*average, values@.take(at as int)),
        decreases values@.len() - at,
    {
        proof {
            lemma_sq_sum_defined_prefix(*average, values@, at + 1);
            assert(values@.take(at + 1).drop_last() == values@.take(at as int));
        }
        total.add(values[at].diff_sqrd(average));
        count += 1;
        at += 1;
    }
    assert(values@.take(at as int) == values@);
    if count >= 2 {
        total.divide(count - 1);
        total
    } else {
        K::zero()
    }
}

/// Division of `a` by a positive `n` that rounds toward zero, as the machine
/// divides signed integers.
pub open spec fn trunc_div(a: int, n: int) -> int {
    if a >= 0 {
        a / n
    } else {
        -((-a) / n)
    }
}

/// `a` divided by `n`, rounded toward zero.
fn quotient(a: i64, n: u32) -> (q: i64)
    requires
        n != 0,
    ensures
        q == trunc_div(a as int, n as int),
{
    if a >= 0 {
        ((a as u64) / (n as u64)) as i64
    } else {
        let magnitude: u64 = ((-(a + 1)) as u64) + 1;
        let parts: u64 = magnitude / (n as u64);
        if parts > i64::MAX as u64 {
            i64::MIN
        } else {
            -(parts as i64)
        }
    }
}

/// The 64-bit integers as a numeric kind: sums and squares must stay in the
/// range of the type, and division, by a count other than zero, rounds toward
/// zero.
impl Average for i64 {
    open spec fn zero_value() -> i64 {
        0
    }

    open spec fn add_defined(acc: i64, v: i64) -> bool {
        i64::MIN <= acc + v <= i64::MAX
    }

    open spec fn add_value(acc: i64, v: i64) -> i64 {
        (acc + v) as i64
    }

    open spec fn divide_defined(acc: i64, count: u32) -> bool {
        count != 0
    }

    open spec fn divide_value(acc: i64, count: u32) -> i64 {
        trunc_div(acc as int, count as int) as i64
    }

    open spec fn diff_sqrd_defined(a: i64, b: i64) -> bool {
        &&& i64::MIN <= a - b <= i64::MAX
        &&& (a - b) * (a - b) <= i64::MAX
    }

    open spec fn diff_sqrd_value(a: i64, b: i64) -> i64 {
        ((a - b) * (a - b)) as i64
    }

    fn zero() -> i64 {
        0
    }

    fn add(&mut self, b: i64) {
        *self += b;
    }

    fn divide(&mut self, count: u32) {
        *self = quotient(*self, count);
    }

    fn diff_sqrd(&self, b: &i64) -> i64 {
        let dif: i64 = *self - *b;
        assert(dif * dif >= 0) by (nonlinear_arith);
        dif * dif
    }
}

/// The sum of the elements of `s` as a mathematical integer.
pub open spec fn total(s: Seq<i64>) -> int {
    s.fold_left(0int, |acc: int, v: i64| acc + v)
}

/// Where the integer kind can sum `s`, the sum is the mathematical one.
pub proof fn lemma_integer_sum(s: Seq<i64>)
    requires
        sum_defined(s),
    ensures
        sum_value(s) == total(s),
    decreases s.len(),
{
    if s.len() > 0 {
        lemma_integer_sum(s.drop_last());
    }
}

/// Where the integer kind can average `s`, the mean is the mathematical sum
/// divided by the count and rounded toward zero.
pub proof fn lemma_integer_mean(s: Seq<i64>)
    requires
        mean_defined(s),
    ensures
        mean_value(s) == trunc_div(total(s), s.len() as int),
{
    lemma_integer_sum(s);
    let sum = total(s);
    let n = s.len() as int;
    assert(i64::MIN <= trunc_div(sum, n) <= i64::MAX) by (nonlinear_arith)
        requires
            i64::MIN <= sum <= i64::MAX,
            n >= 1,
    ;
}

/// The mean of integers does not depend on their order: two sequences that
/// hold the same values, each as often as the other, and that the integer
/// kind can both average, have the same mean.
pub proof fn lemma_mean_reordered(a: Seq<i64>, b: Seq<i64>)
    requires
        a.to_multiset() == b.to_multiset(),
        mean_defined(a),
        mean_defined(b),
    ensures
        mean_value(a) == mean_value(b),
{
    let plus = |acc: int, v: i64| acc + v;
    assert(commutative_foldl(plus));
    lemma_fold_left_permutation(a, b, plus, 0int);
    lemma_integer_sum(a);
    lemma_integer_sum(b);
    a.to_multiset_ensures();
    b.to_multiset_ensures();
}

/// The means of the windows of `width` consecutive elements of `s`, the
/// window that starts at the first element first.
pub open spec fn sliding_means<K: Average>(s: Seq<K>, width: nat) -> Seq<K>
    recommends
        1 <= width <= s.len(),
{
    Seq::new((s.len() - width + 1) as nat, |i: int| mean_value(s.subrange(i, i + width)))
}

/// The mean of every window of `width` consecutive elements of `s` can be
/// computed.
pub open spec fn windows_defined<K: Average>(s: Seq<K>, width: nat) -> bool {
    forall|i: int|
        0 <= i && i + width <= s.len() ==> mean_defined(#[trigger] s.subrange(i, i + width))
}

/// The mean of the values of a window, the oldest first.
fn mean_of_window<T: Average + Copy>(window: &VecDeque<T>) -> (mean: T)
    requires
        mean_defined(window@),
    ensures
        mean == mean_value(window@),
{
    let mut total = T::zero();
    let mut count: u32 = 0;
    let mut at: usize = 0;
    while at < window.len()
        invariant
            mean_defined(window@),
            at <= window@.len(),
            count == at,
            total == sum_value(window@.take(at as int)),
        decreases window@.len() - at,
    {
        proof {
            lemma_sum_defined_prefix(window@, at + 1);
            assert(window@.take(at + 1).drop_last() == window@.take(at as int));
        }
        total.add(window[at]);
        count += 1;
        at += 1;
    }
    assert(window@.take(at as int) == window@);
    total.divide(count);
    total
}

/// A moving average that is fed one value at a time. It holds the latest
/// values, fewer than `width` of them, and answers each value that completes a
/// window with the mean of that window.
pub struct MovingAverage<T> {
    width: usize,
    window: VecDeque<T>,
}

impl<T> MovingAverage<T> {
    /// The number of values in a window.
    pub closed spec fn width(&self) -> nat {
        self.width as nat
    }

    /// The values held, the oldest first.
    pub closed spec fn held(&self) -> Seq<T> {
        self.window@
    }

    /// Fewer values are held than make a window.
    pub open spec fn wf(&self) -> bool {
        self.held().len() < self.width()
    }
}

impl<T: Average + Copy> MovingAverage<T> {
    /// A moving average over windows of `width` values that holds no value yet.
    pub fn new(width: usize) -> (fresh: Self)
        requires
            width >= 1,
        ensures
            fresh.wf(),
            fresh.width() == width,
            fresh.held() == Seq::<T>::empty(),
    {
        MovingAverage { width, window: VecDeque::with_capacity(width) }
    }

    /// Takes in `item`. Where it completes a window, returns the mean of that
    /// window and lets go of the window's oldest value; else returns `None`.
    pub fn push(&mut self, item: T) -> (out: Option<T>)
        requires
            old(self).wf(),
            old(self).held().len() + 1 == old(self).width() ==> mean_defined(
                old(self).held().push(item),
            ),
        ensures
            final(self).wf(),
            final(self).width() == old(self).width(),
            old(self).held().len() + 1 < old(self).width() ==> out is None && final(self).held()
                == old(self).held().push(item),
            old(self).held().len() + 1 == old(self).width() ==> out == Some(
                mean_value(old(self).held().push(item)),
            ) && final(self).held() == old(self).held().push(item).drop_first(),
    {
        self.window.push_back(item);
        if self.window.len() < self.width {
            None
        } else {
            let mean = mean_of_window(&self.window);
            self.window.pop_front();
            Some(mean)
        }
    }
}

/// The moving average of the values that `values` yields: the mean of each
/// window of `width` consecutive values, in the order of the windows; `None`
/// where `values` yields fewer than `width` values.
pub fn moving_average<T: Average + Copy, I: Iterator<Item = T>>(width: usize, values: I) -> (out:
    Option<Vec<T>>)
    requires
        width >= 1,
        values.obeys_prophetic_iter_laws(),
        values.decrease() is Some,
        windows_defined(values.remaining(), width as nat),
    ensures
        out is None <==> values.remaining().len() < width,
        out matches Some(means) ==> means@.len() == values.remaining().len() - width + 1 && means@
            == sliding_means(values.remaining(), width as nat),
{
    let ghost all = values.remaining();
    let mut values = values;
    let ghost mut seen: Seq<T> = Seq::empty();
    let mut state: MovingAverage<T> = MovingAverage::new(width);
    let mut means: Vec<T> = Vec::new();
    loop
        invariant
            width >= 1,
            values.obeys_prophetic_iter_laws(),
            values.decrease() is Some,
            all == seen + values.remaining(),
            windows_defined(all, width as nat),
            state.wf(),
            state.width() == width,
            seen.len() < width ==> state.held() == seen && means@.len() == 0,
            seen.len() >= width ==> state.held() == seen.skip(seen.len() - width + 1) && means@
                == sliding_means(seen, width as nat),
        ensures
            seen == all,
            seen.len() < width ==> means@.len() == 0,
            seen.len() >= width ==> means@ == sliding_means(seen, width as nat),
        decreases values.decrease()->0,
    {
        match values.next() {
            Some(value) => {
                let ghost longer = seen.push(value);
                let ghost full = state.held().push(value);
                proof {
                    assert(all.take(longer.len() as int) == longer);
                    if longer.len() >= width {
                        let first = longer.len() - width;
                        assert(full == all.subrange(first, first + width));
                    }
                }
                match state.push(value) {
                    Some(mean) => {
                        means.push(mean);
                        proof {
                            let first = longer.len() - width;
                            assert(full == longer.subrange(first, first + width));
                            assert(state.held() == longer.skip(first + 1));
                            assert forall|i: int| 0 <= i < first implies #[trigger] longer.subrange(
                                i,
                                i + width,
                            ) == seen.subrange(i, i + width) by {}
                            assert(means@ == sliding_means(longer, width as nat));
                        }
                    },
                    None => {
                        assert(state.held() == longer);
                    },
                }
                proof {
                    seen = longer;
                }
            },
            None => {
                assert(seen == all);
                break ;
            },
        }
    }
    if means.len() == 0 {
        None
    } else {
        Some(means)
    }
}

} // verus!
