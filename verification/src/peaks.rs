//! Local peaks of a sequence, found in a window that slides over it. A peak
//! may be a plateau: a run of values that tie with the one at the centre.

use crate::order::{callable, computes, ties};
use std::cmp::Ordering;
use std::collections::VecDeque;
use vstd::prelude::*;
use vstd::std_specs::cmp::OrdSpec;
use vstd::std_specs::iter::IteratorSpec;

verus! {

/// The element at the centre of a window of odd length.
pub open spec fn center<T>(window: Seq<T>) -> T {
    window[(window.len() / 2) as int]
}

/// The number of elements of a window.
pub open spec fn span_of<T>(window: Seq<T>) -> int {
    window.len() as int
}

/// The elements of a window that follow its centre.
pub open spec fn after_center<T>(window: Seq<T>) -> Seq<T> {
    window.skip((window.len() / 2 + 1) as int)
}

/// On the left of the centre, from place `from` on, nothing rules out a peak:
/// no element comes after the centre in `order`, and the elements that tie
/// with the centre form one run that ends next to it.
pub open spec fn left_holds<T>(order: spec_fn(T, T) -> Ordering, window: Seq<T>, from: int) -> bool {
    &&& forall|k: int|
        from <= k < window.len() / 2 ==> order(center(window), #[trigger] window[k])
            != Ordering::Less
    &&& forall|a: int, b: int|
        from <= a < b < window.len() / 2 && #[trigger] ties(order, center(window), window[a])
            ==> #[trigger] ties(order, center(window), window[b])
}

/// On the right of the centre, before place `to`, nothing rules out a peak:
/// no element comes after the centre in `order`, and the elements that tie
/// with the centre form one run that starts next to it.
pub open spec fn right_holds<T>(order: spec_fn(T, T) -> Ordering, window: Seq<T>, to: int) -> bool {
    &&& forall|k: int|
        window.len() / 2 < k < to ==> order(center(window), #[trigger] window[k])
            != Ordering::Less
    &&& forall|a: int, b: int|
        window.len() / 2 < a < b < to && #[trigger] ties(order, center(window), window[b])
            ==> #[trigger] ties(order, center(window), window[a])
}

/// The centre of `window` is a peak: no other element comes after the centre
/// in `order`, and on either side the elements that tie with the centre form
/// one run next to it. The centre is always the first operand.
pub open spec fn is_peak<T>(order: spec_fn(T, T) -> Ordering, window: Seq<T>) -> bool {
    left_holds(order, window, 0) && right_holds(order, window, span_of(window))
}

/// The number of elements at the start of `s` that tie with `with`.
pub open spec fn run_from<T>(order: spec_fn(T, T) -> Ordering, with: T, s: Seq<T>) -> int
    decreases s.len(),
{
    if s.len() > 0 && ties(order, with, s[0]) {
        1 + run_from(order, with, s.drop_first())
    } else {
        0
    }
}

/// For a window whose centre is a peak, the number of elements right after the
/// centre that tie with it; `None` for any other window.
pub open spec fn plateau<T>(order: spec_fn(T, T) -> Ordering, window: Seq<T>) -> Option<int> {
    if is_peak(order, window) {
        Some(run_from(order, center(window), after_center(window)))
    } else {
        None
    }
}

/// What a full window gives while `skip` windows are still to be passed over:
/// the peak to report, if any, and the number of windows to pass over next.
///
/// A window that is passed over reports nothing. Any other window whose centre
/// is a peak reports the centre with the width of its plateau, the centre
/// counted in, and has the windows of the rest of the plateau passed over.
pub open spec fn step<T>(order: spec_fn(T, T) -> Ordering, window: Seq<T>, skip: int) -> (
    Option<(T, int)>,
    int,
) {
    if skip > 0 {
        (None, skip - 1)
    } else {
        match plateau(order, window) {
            Some(run) => (Some((center(window), run + 1)), run),
            None => (None, 0),
        }
    }
}

/// The peaks reported for the windows of `span` elements of `s`, from the
/// window at the start of `s` on, with `skip` windows to pass over first.
pub open spec fn scan<T>(order: spec_fn(T, T) -> Ordering, s: Seq<T>, span: int, skip: int) -> Seq<
    (T, int),
>
    decreases s.len(),
{
    if span < 1 || s.len() < span {
        Seq::empty()
    } else {
        let now = step(order, s.take(span), skip);
        let later = scan(order, s.drop_first(), span, now.1);
        match now.0 {
            Some(peak) => seq![peak] + later,
            None => later,
        }
    }
}

/// The peaks of `s` for windows that reach `width` elements to either side of
/// their centre, each with the width of its plateau, in the order of their
/// places in `s`.
pub open spec fn detected<T>(order: spec_fn(T, T) -> Ordering, s: Seq<T>, width: usize) -> Seq<
    (T, int),
> {
    scan(order, s, 2 * width + 1, 0)
}

/// A run at the start of `s` is no longer than `s`.
proof fn lemma_run_bounded<T>(order: spec_fn(T, T) -> Ordering, with: T, s: Seq<T>)
    ensures
        0 <= run_from(order, with, s) <= s.len(),
    decreases s.len(),
{
    if s.len() > 0 {
        lemma_run_bounded(order, with, s.drop_first());
    }
}

/// Every peak that a scan reports has a plateau of one value at least, the
/// centre, and of no more values than a window holds from its centre on.
pub proof fn lemma_plateau_widths<T>(
    order: spec_fn(T, T) -> Ordering,
    s: Seq<T>,
    span: int,
    skip: int,
)
    requires
        span >= 1,
    ensures
        forall|k: int|
            0 <= k < scan(order, s, span, skip).len() ==> 1 <= (#[trigger] scan(
                order,
                s,
                span,
                skip,
            )[k]).1 <= span - span / 2,
    decreases s.len(),
{
    if s.len() >= span {
        let window = s.take(span);
        let now = step(order, window, skip);
        let later = scan(order, s.drop_first(), span, now.1);
        let whole = scan(order, s, span, skip);
        lemma_run_bounded(order, center(window), after_center(window));
        lemma_plateau_widths(order, s.drop_first(), span, now.1);
        assert(after_center(window).len() == span - (span / 2 + 1));
        assert forall|k: int| 0 <= k < whole.len() implies 1 <= (#[trigger] whole[k]).1 <= span
            - span / 2 by {
            if now.0 is Some {
                if k > 0 {
                    assert(whole[k] == later[k - 1]);
                }
            } else {
                assert(whole[k] == later[k]);
            }
        }
    }
}

/// `compare` may be called on the centre of `window`, as the first operand,
/// and each other element of it.
pub open spec fn callable_window<T, F: FnMut(&T, &T) -> Ordering>(compare: F, window: Seq<T>) -> bool {
    forall|i: int|
        0 <= i < window.len() && i != window.len() / 2 ==> callable(
            compare,
            center(window),
            #[trigger] window[i],
        )
}

/// `compare` may be called within every window of `s`.
pub open spec fn callable_windows<T, F: FnMut(&T, &T) -> Ordering>(
    compare: F,
    s: Seq<T>,
    width: usize,
) -> bool {
    forall|at: int|
        0 <= at && at + 2 * width + 1 <= s.len() ==> callable_window(
            compare,
            #[trigger] s.subrange(at, at + 2 * width + 1),
        )
}

/// `compare` computes `order` on the centre of `window`, as the first operand,
/// and each other element of it.
pub open spec fn compares_window<T, F: FnMut(&T, &T) -> Ordering>(
    compare: F,
    order: spec_fn(T, T) -> Ordering,
    window: Seq<T>,
) -> bool {
    forall|i: int|
        0 <= i < window.len() && i != window.len() / 2 ==> computes(
            compare,
            order,
            center(window),
            #[trigger] window[i],
        )
}

/// `compare` computes `order` within every window of `s`.
pub open spec fn compares_windows<T, F: FnMut(&T, &T) -> Ordering>(
    compare: F,
    order: spec_fn(T, T) -> Ordering,
    s: Seq<T>,
    width: usize,
) -> bool {
    forall|at: int|
        0 <= at && at + 2 * width + 1 <= s.len() ==> compares_window(
            compare,
            order,
            #[trigger] s.subrange(at, at + 2 * width + 1),
        )
}

/// `order` decides what is done with `window` while `skip` windows are to be
/// passed over: either the window is passed over, whatever the order, or
/// `compare` computes `order` in it.
pub open spec fn judges<T, F: FnMut(&T, &T) -> Ordering>(
    compare: F,
    order: spec_fn(T, T) -> Ordering,
    window: Seq<T>,
    skip: int,
) -> bool {
    skip > 0 || compares_window(compare, order, window)
}

/// `out` reports `expected`: the same plateau width, and a clone of the value.
pub open spec fn announces<T: Clone>(out: Option<(T, usize)>, expected: Option<(T, int)>) -> bool {
    match (out, expected) {
        (None, None) => true,
        (Some(told), Some(peak)) => cloned(peak.0, told.0) && told.1 == peak.1,
        _ => false,
    }
}

/// `out` reports the peaks of `expected`, one for one.
pub open spec fn reported<T: Clone>(out: Seq<(T, usize)>, expected: Seq<(T, int)>) -> bool {
    &&& out.len() == expected.len()
    &&& forall|k: int|
        0 <= k < out.len() ==> cloned(expected[k].0, (#[trigger] out[k]).0) && out[k].1
            == expected[k].1
}

/// `out` is the run that `expected` holds, or both are `None`.
pub open spec fn same_run(out: Option<usize>, expected: Option<int>) -> bool {
    match (out, expected) {
        (None, None) => true,
        (Some(run), Some(length)) => run == length,
        _ => false,
    }
}

/// Where the first `run` elements of `s` tie with `with` and the next one, if
/// there is one, does not, the run at the start of `s` has `run` elements.
proof fn lemma_run_from<T>(order: spec_fn(T, T) -> Ordering, with: T, s: Seq<T>, run: int)
    requires
        0 <= run <= s.len(),
        forall|k: int| 0 <= k < run ==> ties(order, with, #[trigger] s[k]),
        run < s.len() ==> !ties(order, with, s[run]),
    ensures
        run_from(order, with, s) == run,
    decreases s.len(),
{
    if run > 0 {
        assert(ties(order, with, s[0]));
        let rest = s.drop_first();
        assert forall|k: int| 0 <= k < run - 1 implies ties(order, with, #[trigger] rest[k]) by {
            assert(rest[k] == s[k + 1]);
        }
        lemma_run_from(order, with, rest, run - 1);
    }
}

/// What is known on the left of the centre once the places from `from` on have
/// been compared: nothing rules out a peak, and either all of them tie with
/// the centre or the one at `broken` does not.
pub open spec fn left_scanned<T>(
    order: spec_fn(T, T) -> Ordering,
    window: Seq<T>,
    from: int,
    continuous: bool,
    broken: int,
) -> bool {
    &&& left_holds(order, window, from)
    &&& continuous ==> forall|k: int|
        from <= k < window.len() / 2 ==> ties(order, center(window), #[trigger] window[k])
    &&& !continuous ==> from <= broken < window.len() / 2 && !ties(
        order,
        center(window),
        window[broken],
    )
}

/// What is known on the right of the centre once the places before `to` have
/// been compared: nothing rules out a peak, and the run of ties next to the
/// centre has `run` elements, all places compared if it is unbroken.
pub open spec fn right_scanned<T>(
    order: spec_fn(T, T) -> Ordering,
    window: Seq<T>,
    to: int,
    unbroken: bool,
    run: int,
) -> bool {
    &&& right_holds(order, window, to)
    &&& forall|k: int|
        window.len() / 2 < k <= window.len() / 2 + run ==> ties(
            order,
            center(window),
            #[trigger] window[k],
        )
    &&& unbroken ==> window.len() / 2 + run + 1 == to
    &&& !unbroken ==> window.len() / 2 + run + 1 < to && !ties(
        order,
        center(window),
        window[window.len() / 2 + run + 1],
    )
}

/// A window that has been compared on both sides without finding anything
/// against it is a peak with the run that was counted.
proof fn lemma_peak_found<T>(
    order: spec_fn(T, T) -> Ordering,
    window: Seq<T>,
    unbroken: bool,
    run: int,
)
    requires
        window.len() % 2 == 1,
        0 <= run,
        left_holds(order, window, 0),
        right_scanned(order, window, span_of(window), unbroken, run),
    ensures
        plateau(order, window) == Some(run),
{
    let half = window.len() / 2;
    let rest = after_center(window);
    assert forall|k: int| 0 <= k < rest.len() implies #[trigger] rest[k] == window[half + 1 + k] by {}
    assert forall|k: int| 0 <= k < run implies ties(order, center(window), #[trigger] rest[k]) by {
        assert(rest[k] == window[half + 1 + k]);
    }
    if run < rest.len() {
        assert(rest[run] == window[half + 1 + run]);
    }
    lemma_run_from(order, center(window), rest, run);
}

/// Tests the centre of a full window: the length of the run of ties right
/// after it where it is a peak.
#[verifier::loop_isolation(false)]
#[verifier::rlimit(40)]
fn plateau_of<T, F: FnMut(&T, &T) -> Ordering>(window: &VecDeque<T>, half: usize, compare: &mut F) -> (out:
    Option<usize>)
    requires
        window@.len() == 2 * half + 1,
        2 * half + 1 <= usize::MAX,
        callable_window(*old(compare), window@),
    ensures
        *final(compare) == *old(compare),
        out matches Some(run) ==> run <= half,
        forall|order: spec_fn(T, T) -> Ordering| #[trigger]
            compares_window(*old(compare), order, window@) ==> same_run(
                out,
                plateau(order, window@),
            ),
{
    let ghost judge = *compare;
    let ghost top = center(window@);
    let middle_value = &window[half];
    let mut continuous = true;
    let ghost mut broken: int = 0;
    let mut i: usize = half;
    while i > 0
        invariant
            i <= half,
            window@.len() == 2 * half + 1,
            *compare == judge,
            top == center(window@),
            *middle_value == top,
            callable_window(judge, window@),
            forall|order: spec_fn(T, T) -> Ordering| #[trigger]
                compares_window(judge, order, window@) ==> left_scanned(
                    order,
                    window@,
                    i + 0,
                    continuous,
                    broken,
                ),
        decreases i,
    {
        i -= 1;
        let ghost other = window@[i + 0];
        assert(callable(judge, top, other));
        let verdict = compare(middle_value, &window[i]);
        let ghost was = continuous;
        let ghost gap = broken;
        let refuted = match verdict {
            Ordering::Less => true,
            Ordering::Equal => !continuous,
            Ordering::Greater => {
                proof {
                    broken = i + 0;
                }
                continuous = false;
                false
            },
        };
        proof {
            assert forall|order: spec_fn(T, T) -> Ordering| #[trigger]
                compares_window(judge, order, window@) implies order(top, other) == verdict
                && left_scanned(order, window@, i + 1, was, gap) by {
                assert(computes(judge, order, top, other));
            }
        }
        if refuted {
            proof {
                assert forall|order: spec_fn(T, T) -> Ordering| #[trigger]
                    compares_window(judge, order, window@) implies plateau(order, window@)
                    is None by {
                    assert(order(top, other) == verdict);
                    assert(left_scanned(order, window@, i + 1, was, gap));
                    if verdict == Ordering::Equal {
                        assert(ties(order, top, window@[i + 0]));
                        assert(!ties(order, top, window@[gap]));
                    }
                }
            }
            return None;
        }
        proof {
            assert forall|order: spec_fn(T, T) -> Ordering| #[trigger]
                compares_window(judge, order, window@) implies left_scanned(
                order,
                window@,
                i + 0,
                continuous,
                broken,
            ) by {
                assert(order(top, other) == verdict);
                assert(left_scanned(order, window@, i + 1, was, gap));
            }
        }
    }
    let size = window.len();
    let mut unbroken = true;
    let mut run: usize = 0;
    let mut j: usize = half + 1;
    while j < size
        invariant
            half < j <= size,
            size == 2 * half + 1,
            window@.len() == size,
            run <= j - half - 1,
            *compare == judge,
            top == center(window@),
            *middle_value == top,
            callable_window(judge, window@),
            forall|order: spec_fn(T, T) -> Ordering| #[trigger]
                compares_window(judge, order, window@) ==> left_holds(order, window@, 0)
                    && right_scanned(order, window@, j + 0, unbroken, run + 0),
        decreases size - j,
    {
        let ghost other = window@[j + 0];
        assert(callable(judge, top, other));
        let verdict = compare(middle_value, &window[j]);
        let ghost was = unbroken;
        let ghost count = run + 0;
        let refuted = match verdict {
            Ordering::Less => true,
            Ordering::Equal => {
                if unbroken {
                    run += 1;
                    false
                } else {
                    true
                }
            },
            Ordering::Greater => {
                unbroken = false;
                false
            },
        };
        proof {
            assert forall|order: spec_fn(T, T) -> Ordering| #[trigger]
                compares_window(judge, order, window@) implies order(top, other) == verdict
                && right_scanned(order, window@, j + 0, was, count) by {
                assert(computes(judge, order, top, other));
            }
        }
        if refuted {
            proof {
                assert forall|order: spec_fn(T, T) -> Ordering| #[trigger]
                    compares_window(judge, order, window@) implies plateau(order, window@)
                    is None by {
                    assert(order(top, other) == verdict);
                    assert(right_scanned(order, window@, j + 0, was, count));
                    if verdict == Ordering::Equal {
                        assert(ties(order, top, window@[j + 0]));
                        assert(!ties(order, top, window@[half + count + 1]));
                    }
                }
            }
            return None;
        }
        proof {
            assert forall|order: spec_fn(T, T) -> Ordering| #[trigger]
                compares_window(judge, order, window@) implies right_scanned(
                order,
                window@,
                j + 1,
                unbroken,
                run + 0,
            ) by {
                assert(order(top, other) == verdict);
                assert(right_scanned(order, window@, j + 0, was, count));
                assert(left_holds(order, window@, 0));
            }
        }
        j += 1;
    }
    proof {
        assert forall|order: spec_fn(T, T) -> Ordering| #[trigger]
            compares_window(judge, order, window@) implies same_run(
            Some(run),
            plateau(order, window@),
        ) by {
            lemma_peak_found(order, window@, unbroken, run + 0);
        }
    }
    Some(run)
}

/// A peak detector that is fed one value at a time. It holds the latest
/// values, fewer than make a window, and tests the window that each further
/// value completes.
pub struct PeakDetector<T> {
    half: usize,
    window: VecDeque<T>,
    to_skip: usize,
}

impl<T> PeakDetector<T> {
    /// The number of elements of a window on either side of its centre.
    pub closed spec fn half(&self) -> int {
        self.half as int
    }

    /// The values held, the oldest first.
    pub closed spec fn held(&self) -> Seq<T> {
        self.window@
    }

    /// The number of coming windows that are passed over untested.
    pub closed spec fn skipping(&self) -> int {
        self.to_skip as int
    }

    /// Fewer values are held than make a window, and no more windows are
    /// passed over than a plateau inside one window can hold.
    pub open spec fn wf(&self) -> bool {
        &&& 0 <= self.half()
        &&& 2 * self.half() + 1 <= usize::MAX
        &&& self.held().len() <= 2 * self.half()
        &&& 0 <= self.skipping() <= self.half()
    }
}

impl<T: Clone> PeakDetector<T> {
    /// A detector for windows that reach `width` elements to either side of
    /// their centre. It holds no value yet.
    pub fn new(width: usize) -> (fresh: Self)
        requires
            2 * width + 1 <= usize::MAX,
        ensures
            fresh.wf(),
            fresh.half() == width,
            fresh.held() == Seq::<T>::empty(),
            fresh.skipping() == 0,
    {
        PeakDetector { half: width, window: VecDeque::with_capacity(2 * width + 1), to_skip: 0 }
    }

    /// Whether the next value completes a window.
    pub fn primed(&self) -> (yes: bool)
        requires
            self.wf(),
        ensures
            yes <==> self.held().len() == 2 * self.half(),
    {
        self.window.len() == 2 * self.half
    }

    /// Takes in `item`. Where it completes a window, handles that window as
    /// `step` says, under every order that `compare` computes in it, and lets
    /// go of the window's oldest value; else returns `None`.
    pub fn observe<F: FnMut(&T, &T) -> Ordering>(&mut self, item: T, compare: &mut F) -> (out: Option<
        (T, usize),
    >)
        requires
            old(self).wf(),
            old(self).held().len() == 2 * old(self).half() && old(self).skipping() == 0
                ==> callable_window(*old(compare), old(self).held().push(item)),
        ensures
            *final(compare) == *old(compare),
            final(self).wf(),
            final(self).half() == old(self).half(),
            old(self).held().len() < 2 * old(self).half() ==> out is None && final(self).held()
                == old(self).held().push(item) && final(self).skipping() == old(self).skipping(),
            old(self).held().len() == 2 * old(self).half() ==> final(self).held() == old(
                self,
            ).held().push(item).drop_first(),
            out matches Some(told) ==> cloned(center(old(self).held().push(item)), told.0),
            old(self).held().len() == 2 * old(self).half() ==> forall|
                order: spec_fn(T, T) -> Ordering,
            | #[trigger]
                judges(*old(compare), order, old(self).held().push(item), old(self).skipping())
                    ==> announces(
                    out,
                    step(order, old(self).held().push(item), old(self).skipping()).0,
                ) && final(self).skipping() == step(
                    order,
                    old(self).held().push(item),
                    old(self).skipping(),
                ).1,
    {
        self.window.push_back(item);
        if self.window.len() < 2 * self.half + 1 {
            return None;
        }
        if self.to_skip > 0 {
            self.to_skip -= 1;
            self.window.pop_front();
            return None;
        }
        let ghost full = self.window@;
        let ghost judge = *compare;
        let found = plateau_of(&self.window, self.half, compare);
        let out = match found {
            Some(in_row) => {
                self.to_skip = in_row;
                Some((self.window[self.half].clone(), in_row + 1))
            },
            None => None,
        };
        self.window.pop_front();
        proof {
            assert forall|order: spec_fn(T, T) -> Ordering| #[trigger]
                judges(judge, order, full, 0) implies announces(out, step(order, full, 0).0)
                && self.skipping() == step(order, full, 0).1 by {
                assert(compares_window(judge, order, full));
                assert(same_run(found, plateau(order, full)));
            }
        }
        out
    }
}

/// The natural order of `T`, as `T::cmp` computes it.
pub open spec fn natural_order<T: Ord>() -> spec_fn(T, T) -> Ordering {
    |a: T, b: T| a.cmp_spec(&b)
}

/// A scan goes on from the window at place `at` of `s`: what was reported
/// before, with what the step for this window reports, is followed by the scan
/// from the next place on.
proof fn lemma_scan_advances<T>(
    order: spec_fn(T, T) -> Ordering,
    s: Seq<T>,
    at: int,
    span: int,
    skip: int,
    before: Seq<(T, int)>,
    whole: Seq<(T, int)>,
)
    requires
        1 <= span,
        0 <= at,
        at + span <= s.len(),
        whole == before + scan(order, s.skip(at), span, skip),
    ensures
        ({
            let now = step(order, s.subrange(at, at + span), skip);
            let later = scan(order, s.skip(at + 1), span, now.1);
            whole == match now.0 {
                Some(peak) => before.push(peak) + later,
                None => before + later,
            }
        }),
{
    assert(s.skip(at).take(span) == s.subrange(at, at + span));
    assert(s.skip(at).drop_first() == s.skip(at + 1));
    let now = step(order, s.subrange(at, at + span), skip);
    let later = scan(order, s.skip(at + 1), span, now.1);
    if now.0 is Some {
        assert(before + (seq![now.0->0] + later) == before.push(now.0->0) + later);
    }
}

/// The peaks among the values that `values` yields, under every order that
/// `f` computes within the windows: for each peak, a clone of the value at the
/// centre of its window and the width of its plateau. `None` where `values`
/// yields fewer than `2 * width + 1` values, which is one window.
///
/// A window reaches `width` values to either side of its centre. `f` is
/// always called with the centre as its first operand.
#[verifier::rlimit(40)]
pub fn peaks_by<T: Clone, I: Iterator<Item = T>, F: FnMut(&T, &T) -> Ordering>(
    width: usize,
    values: I,
    f: F,
) -> (out: Option<Vec<(T, usize)>>)
    requires
        2 * width + 1 <= usize::MAX,
        values.obeys_prophetic_iter_laws(),
        values.decrease() is Some,
        callable_windows(f, values.remaining(), width),
    ensures
        out is None <==> values.remaining().len() < 2 * width + 1,
        out matches Some(peaks) ==> forall|order: spec_fn(T, T) -> Ordering| #[trigger]
            compares_windows(f, order, values.remaining(), width) ==> reported(
                peaks@,
                detected(order, values.remaining(), width),
            ),
{
    let ghost all = values.remaining();
    let ghost judge = f;
    let ghost span: int = 2 * width + 1;
    let mut values = values;
    let mut f = f;
    let ghost mut seen: Seq<T> = Seq::empty();
    let ghost mut at: int = 0;
    let ghost mut expected: Seq<(T, int)> = Seq::empty();
    let mut state: PeakDetector<T> = PeakDetector::new(width);
    let mut found: Vec<(T, usize)> = Vec::new();
    let mut complete = false;
    assert(all.skip(0) == all);
    loop
        invariant
            span == 2 * width + 1,
            values.obeys_prophetic_iter_laws(),
            values.decrease() is Some,
            all == seen + values.remaining(),
            f == judge,
            callable_windows(judge, all, width),
            state.wf(),
            state.half() == width,
            seen.len() < span ==> state.held() == seen && !complete && at == 0,
            seen.len() >= span ==> complete && at == seen.len() - span + 1 && state.held()
                == seen.skip(at),
            forall|order: spec_fn(T, T) -> Ordering| #[trigger]
                compares_windows(judge, order, all, width) ==> detected(order, all, width)
                    == expected + scan(order, all.skip(at), span, state.skipping()),
            reported(found@, expected),
        ensures
            seen == all,
            complete <==> all.len() >= span,
            forall|order: spec_fn(T, T) -> Ordering| #[trigger]
                compares_windows(judge, order, all, width) ==> reported(
                    found@,
                    detected(order, all, width),
                ),
        decreases values.decrease()->0,
    {
        match values.next() {
            Some(value) => {
                let ghost longer = seen.push(value);
                let ghost full = state.held().push(value);
                let ghost skip = state.skipping();
                let ghost filled = full.len() == span;
                let ghost before = expected;
                proof {
                    if filled {
                        assert(full == all.subrange(at, at + 2 * width + 1));
                        assert(callable_window(judge, full));
                    }
                }
                if state.primed() {
                    complete = true;
                }
                match state.observe(value, &mut f) {
                    Some(peak) => {
                        proof {
                            expected = expected.push((center(full), peak.1 + 0));
                        }
                        found.push(peak);
                    },
                    None => {},
                }
                proof {
                    let next = if filled {
                        at + 1
                    } else {
                        at
                    };
                    assert forall|order: spec_fn(T, T) -> Ordering| #[trigger]
                        compares_windows(judge, order, all, width) implies detected(
                        order,
                        all,
                        width,
                    ) == expected + scan(order, all.skip(next), span, state.skipping()) by {
                        if filled {
                            assert(compares_window(
                                judge,
                                order,
                                all.subrange(at, at + 2 * width + 1),
                            ));
                            assert(judges(judge, order, full, skip));
                            lemma_scan_advances(
                                order,
                                all,
                                at,
                                span,
                                skip,
                                before,
                                detected(order, all, width),
                            );
                        }
                    }
                    if filled {
                        at = at + 1;
                        assert(state.held() == longer.skip(at));
                    } else {
                        assert(state.held() == longer);
                    }
                    seen = longer;
                }
            },
            None => {
                assert(seen == all);
                break ;
            },
        }
    }
    if complete {
        Some(found)
    } else {
        None
    }
}

/// The peaks among the values that `values` yields, under the natural order of
/// `T`.
pub fn peaks<T: Clone + Ord, I: Iterator<Item = T>>(width: usize, values: I) -> (out: Option<
    Vec<(T, usize)>,
>)
    requires
        2 * width + 1 <= usize::MAX,
        values.obeys_prophetic_iter_laws(),
        values.decrease() is Some,
        T::obeys_cmp_spec(),
    ensures
        out is None <==> values.remaining().len() < 2 * width + 1,
        out matches Some(peaks) ==> reported(
            peaks@,
            detected(natural_order::<T>(), values.remaining(), width),
        ),
{
    let by_nature = |a: &T, b: &T| -> (o: Ordering)
        ensures
            o == a.cmp_spec(b),
        { a.cmp(b) };
    let out = peaks_by(width, values, by_nature);
    assert(compares_windows(by_nature, natural_order::<T>(), values.remaining(), width));
    out
}

} // verus!
