//! A descriptive summary of a finite collection: mean, sample variance,
//! extrema and quartiles, all taken from one copy of the values.

use crate::average::{
    average_of, mean_defined, mean_value, variance_defined, variance_of, variance_value, Average,
};
use crate::math::{
    combines, greatest, least, lower_half, lower_middle, max_by, min_by, quartiles, quartiles_of,
    upper_half, upper_middle,
};
use crate::order::{computes_on, sorted_permutation, sorts_by};
use crate::text::{decimals, separated, terminated, write_row};
use std::cmp::Ordering;
use vstd::prelude::*;
use vstd::std_specs::iter::IteratorSpec;
use vstd::string::StringExecFns;

verus! {

/// One value, followed by a second one where there is one.
pub open spec fn one_or_two<T>(first: T, second: Option<&T>) -> Seq<T> {
    match second {
        Some(other) => seq![first, *other],
        None => seq![first],
    }
}

/// The one or two middle elements of `s`, the upper one first.
pub open spec fn middle_values<T>(s: Seq<T>) -> Seq<T> {
    match lower_middle(s) {
        Some(lower) => seq![upper_middle(s), lower],
        None => seq![upper_middle(s)],
    }
}

/// The mean of the middle of the lower half of a sorted `s`, of the middle of
/// `s`, and of the middle of its upper half.
pub open spec fn quartile_means<K: Average>(s: Seq<K>) -> Seq<K> {
    seq![
        mean_value(middle_values(lower_half(s))),
        mean_value(middle_values(s)),
        mean_value(middle_values(upper_half(s))),
    ]
}

/// The three means of `quartile_means(s)` can be computed.
pub open spec fn quartile_means_defined<K: Average>(s: Seq<K>) -> bool {
    s.len() > 0 ==> {
        &&& mean_defined(middle_values(lower_half(s)))
        &&& mean_defined(middle_values(s))
        &&& mean_defined(middle_values(upper_half(s)))
    }
}

/// The mean of one value, or of two.
fn mean_of_middle<K: Average + Copy>(first: &K, second: Option<&K>) -> (mean: K)
    requires
        mean_defined(one_or_two(*first, second)),
    ensures
        mean == mean_value(one_or_two(*first, second)),
{
    match second {
        Some(other) => {
            let pair: [K; 2] = [*first, *other];
            assert(pair@ == one_or_two(*first, second));
            average_of(pair.as_slice())
        },
        None => {
            let single: [K; 1] = [*first];
            assert(single@ == one_or_two(*first, second));
            average_of(single.as_slice())
        },
    }
}

/// All that `values` yields, in the order in which it comes.
fn gather<T, I: Iterator<Item = T>>(values: I) -> (all: Vec<T>)
    requires
        values.obeys_prophetic_iter_laws(),
        values.decrease() is Some,
    ensures
        all@ == values.remaining(),
{
    let ghost whole = values.remaining();
    let mut values = values;
    let mut all: Vec<T> = Vec::new();
    loop
        invariant
            values.obeys_prophetic_iter_laws(),
            values.decrease() is Some,
            whole == all@ + values.remaining(),
        ensures
            all@ == whole,
        decreases values.decrease()->0,
    {
        match values.next() {
            Some(value) => {
                all.push(value);
            },
            None => {
                break ;
            },
        }
    }
    all
}

/// The summary of a collection of values of one numeric kind.
pub struct Summary<T> {
    /// The mean.
    pub avg: T,
    /// The sample variance around the mean.
    pub variance: T,
    /// The least value; `None` for an empty collection.
    pub min: Option<T>,
    /// The greatest value; `None` for an empty collection.
    pub max: Option<T>,
    /// Lower quartile, median and upper quartile; `None` for an empty
    /// collection.
    pub quartiles: Option<[T; 3]>,
}

impl<T: Average + Copy> Summary<T> {
    /// Summarises the values that `values` yields, ordered by `ordering`.
    ///
    /// The mean and the variance are those of the values in the order in which
    /// they come. The extrema are the first least and the last greatest value.
    /// Each quartile is the mean of the one or two middle values of its part
    /// of the sorted values.
    ///
    /// `ordering` must compute a consistent order on the values, and the kind
    /// must be able to compute the means and the variance.
    pub fn from_iter<I, O>(values: I, ordering: O) -> (summary: Summary<T>) where
        I: Iterator<Item = T>,
        O: FnMut(&T, &T) -> Ordering,

        requires
            values.obeys_prophetic_iter_laws(),
            values.decrease() is Some,
            mean_defined(values.remaining()),
            variance_defined(mean_value(values.remaining()), values.remaining()),
            exists|order: spec_fn(T, T) -> Ordering| sorts_by(ordering, order, values.remaining()),
            forall|order: spec_fn(T, T) -> Ordering, sorted: Seq<T>|
                sorts_by(ordering, order, values.remaining()) && #[trigger] sorted_permutation(
                    order,
                    values.remaining(),
                    sorted,
                ) ==> quartile_means_defined(sorted),
        ensures
            summary.avg == mean_value(values.remaining()),
            summary.variance == variance_value(summary.avg, values.remaining()),
            forall|order: spec_fn(T, T) -> Ordering| #[trigger]
                computes_on(ordering, order, values.remaining()) ==> summary.min == least(
                    order,
                    values.remaining(),
                ) && summary.max == greatest(order, values.remaining()),
            summary.quartiles is None <==> values.remaining().len() == 0,
            summary.quartiles matches Some(q) ==> exists|sorted: Seq<T>| #[trigger]
                arranges(ordering, values.remaining(), sorted) && q@ == quartile_means(sorted),
    {
        let ghost whole = values.remaining();
        let ghost judge = ordering;
        let mut ordering = ordering;
        let mut values: Vec<T> = gather(values);
        let avg = average_of(values.as_slice());
        let variance = variance_of(&avg, values.as_slice());
        let min = min_by(values.as_slice(), &mut ordering);
        let max = max_by(values.as_slice(), &mut ordering);
        let halfway = |first: &T, second: Option<&T>| -> (mean: T)
            requires
                mean_defined(one_or_two(*first, second)),
            ensures
                mean == mean_value(one_or_two(*first, second)),
            { mean_of_middle(first, second) };
        proof {
            assert forall|order: spec_fn(T, T) -> Ordering, sorted: Seq<T>|
                sorts_by(judge, order, whole) && #[trigger] sorted_permutation(
                    order,
                    whole,
                    sorted,
                ) implies combines(halfway, sorted) by {
                assert(quartile_means_defined(sorted));
                if sorted.len() > 0 {
                    lemma_middle_values(lower_half(sorted));
                    lemma_middle_values(sorted);
                    lemma_middle_values(upper_half(sorted));
                }
            }
        }
        let quartiles = quartiles(values.as_mut_slice(), ordering, halfway);
        proof {
            if quartiles is Some {
                let sorted = values@;
                let q = quartiles->0;
                lemma_middle_values(lower_half(sorted));
                lemma_middle_values(sorted);
                lemma_middle_values(upper_half(sorted));
                assert(quartiles_of(halfway, sorted, q));
                assert(q@ =~= quartile_means(sorted));
                assert(arranges(judge, whole, sorted));
            }
        }
        Summary { avg, variance, min, max, quartiles }
    }
}

/// `sorted` holds the elements of `s`, each as often as `s` does, sorted under
/// every consistent order that `ordering` computes on them.
pub open spec fn arranges<T, O: FnMut(&T, &T) -> Ordering>(
    ordering: O,
    s: Seq<T>,
    sorted: Seq<T>,
) -> bool {
    &&& sorted.to_multiset() == s.to_multiset()
    &&& forall|order: spec_fn(T, T) -> Ordering| #[trigger]
        sorts_by(ordering, order, s) ==> sorted_permutation(order, s, sorted)
}

/// The middle values of `s` are what the middle pair of `s` holds.
proof fn lemma_middle_values<T>(s: Seq<T>)
    ensures
        middle_values(s) == one_or_two(*crate::math::middle_pair(s).0, crate::math::middle_pair(s).1),
{
}

/// The labels of the columns of a summary, each behind `prefix`: mean,
/// variance, minimum, maximum, lower quartile, median, upper quartile.
pub open spec fn summary_labels(prefix: Seq<char>) -> Seq<Seq<char>> {
    seq![
        prefix + seq!['a', 'v', 'g'],
        prefix + seq!['v', 'a', 'r'],
        prefix + seq!['m', 'i', 'n'],
        prefix + seq!['m', 'a', 'x'],
        prefix + seq!['l', 'o', 'w'],
        prefix + seq!['m', 'e', 'd'],
        prefix + seq!['u', 'p'],
    ]
}

/// The values of the row of a summary of integers, in the order of the
/// labels, with zero for a value that is absent.
pub open spec fn summary_values(summary: Summary<i64>) -> Seq<i64> {
    seq![
        summary.avg,
        summary.variance,
        match summary.min {
            Some(v) => v,
            None => 0,
        },
        match summary.max {
            Some(v) => v,
            None => 0,
        },
        match summary.quartiles {
            Some(q) => q[0],
            None => 0,
        },
        match summary.quartiles {
            Some(q) => q[1],
            None => 0,
        },
        match summary.quartiles {
            Some(q) => q[2],
            None => 0,
        },
    ]
}

/// The fields of the row of a summary of integers: its values in decimal.
pub open spec fn summary_fields(summary: Summary<i64>) -> Seq<Seq<char>> {
    decimals(summary_values(summary))
}

/// A summary has as many labels as its row has fields, whatever the prefix
/// and whatever the summary.
pub proof fn lemma_labels_match_fields(prefix: Seq<char>, summary: Summary<i64>)
    ensures
        summary_labels(prefix).len() == summary_fields(summary).len(),
{
}

fn write_label(writer: &mut String, prefix: &str, name: &str)
    ensures
        final(writer)@ == old(writer)@ + (prefix@ + name@) + seq![','],
{
    proof {
        reveal_strlit(",");
    }
    writer.append(prefix);
    writer.append(name);
    writer.append(",");
    assert(writer@ =~= old(writer)@ + (prefix@ + name@) + seq![',']);
}

/// Appends the labels of the columns of a summary to `writer`, each behind
/// `prefix` and followed by a comma.
pub fn write_summary_headers(prefix: &str, writer: &mut String)
    ensures
        final(writer)@ == old(writer)@ + terminated(summary_labels(prefix@), ','),
{
    proof {
        reveal_strlit("avg");
        reveal_strlit("var");
        reveal_strlit("min");
        reveal_strlit("max");
        reveal_strlit("low");
        reveal_strlit("med");
        reveal_strlit("up");
    }
    let ghost labels = summary_labels(prefix@);
    write_label(writer, prefix, "avg");
    write_label(writer, prefix, "var");
    write_label(writer, prefix, "min");
    write_label(writer, prefix, "max");
    write_label(writer, prefix, "low");
    write_label(writer, prefix, "med");
    write_label(writer, prefix, "up");
    proof {
        assert("avg"@ =~= seq!['a', 'v', 'g']);
        assert("var"@ =~= seq!['v', 'a', 'r']);
        assert("min"@ =~= seq!['m', 'i', 'n']);
        assert("max"@ =~= seq!['m', 'a', 'x']);
        assert("low"@ =~= seq!['l', 'o', 'w']);
        assert("med"@ =~= seq!['m', 'e', 'd']);
        assert("up"@ =~= seq!['u', 'p']);
        lemma_terminated_seven(labels, ',');
        assert(writer@ =~= old(writer)@ + terminated(labels, ','));
    }
}

/// Seven fields, each followed by `sep`, written out.
proof fn lemma_terminated_seven(parts: Seq<Seq<char>>, sep: char)
    requires
        parts.len() == 7,
    ensures
        terminated(parts, sep) =~= parts[0] + seq![sep] + parts[1] + seq![sep] + parts[2] + seq![
            sep,
        ] + parts[3] + seq![sep] + parts[4] + seq![sep] + parts[5] + seq![sep] + parts[6] + seq![
            sep,
        ],
{
    let upto6 = parts.drop_last();
    let upto5 = upto6.drop_last();
    let upto4 = upto5.drop_last();
    let upto3 = upto4.drop_last();
    let upto2 = upto3.drop_last();
    let upto1 = upto2.drop_last();
    let upto0 = upto1.drop_last();
    assert(terminated(upto0, sep) =~= Seq::<char>::empty());
    assert(terminated(upto1, sep) =~= parts[0] + seq![sep]);
    assert(terminated(upto2, sep) =~= terminated(upto1, sep) + parts[1] + seq![sep]);
    assert(terminated(upto3, sep) =~= terminated(upto2, sep) + parts[2] + seq![sep]);
    assert(terminated(upto4, sep) =~= terminated(upto3, sep) + parts[3] + seq![sep]);
    assert(terminated(upto5, sep) =~= terminated(upto4, sep) + parts[4] + seq![sep]);
    assert(terminated(upto6, sep) =~= terminated(upto5, sep) + parts[5] + seq![sep]);
    assert(terminated(parts, sep) =~= terminated(upto6, sep) + parts[6] + seq![sep]);
}

impl Summary<i64> {
    /// Appends the row of this summary to `writer`: its fields in the order of
    /// the labels, with a comma between each two of them.
    pub fn to_writer(&self, writer: &mut String)
        ensures
            final(writer)@ == old(writer)@ + separated(summary_fields(*self), ','),
    {
        let min: i64 = match self.min {
            Some(v) => v,
            None => 0,
        };
        let max: i64 = match self.max {
            Some(v) => v,
            None => 0,
        };
        let (low, med, up): (i64, i64, i64) = match self.quartiles {
            Some(q) => (q[0], q[1], q[2]),
            None => (0, 0, 0),
        };
        let row: [i64; 7] = [self.avg, self.variance, min, max, low, med, up];
        assert(row@ =~= summary_values(*self));
        write_row(writer, row.as_slice());
    }
}

} // verus!
