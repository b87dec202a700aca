//! Named parameters read from an encoded string, such as a file name, in
//! which each value is followed by the shorthand of its parameter.

use crate::text::{decimal_of, parse_integer, read_integer, terminated, write_decimal};
use vstd::prelude::*;
use vstd::std_specs::iter::IteratorSpec;
use vstd::string::{StrSliceExecFns, StringExecFns};

verus! {

/// Whether `char::is_alphabetic` holds of `c`.
pub uninterp spec fn alphabetic(c: char) -> bool;

/// Whether `char::is_numeric` holds of `c`.
pub uninterp spec fn numeric(c: char) -> bool;

/// `char::is_alphabetic`: whether `c` has the Unicode property Alphabetic.
#[verifier::external_body]
fn is_alphabetic(c: char) -> (yes: bool)
    ensures
        yes == alphabetic(c),
{
    c.is_alphabetic()
}

/// `char::is_numeric`: whether `c` is in one of the Unicode general categories
/// for numbers.
#[verifier::external_body]
fn is_numeric(c: char) -> (yes: bool)
    ensures
        yes == numeric(c),
{
    c.is_numeric()
}

/// The groups of `s` from place `at` on, for a reader that has come to `at`
/// with a group open at `start`, having found letters in it or not, and having
/// found a number or not.
///
/// A letter goes into the open group. The first number character since the
/// last group without one opens the group anew at its place. Any other
/// character that is no letter closes the open group if that holds letters,
/// and opens the next one at its own place. The end closes the open group.
pub open spec fn groups_from(
    s: Seq<char>,
    at: int,
    start: int,
    found_alpha: bool,
    found_num: bool,
) -> Seq<Seq<char>>
    decreases s.len() - at,
{
    if at >= s.len() {
        seq![s.subrange(start, s.len() as int)]
    } else if alphabetic(s[at]) {
        groups_from(s, at + 1, start, true, found_num)
    } else if numeric(s[at]) && !found_num {
        groups_from(s, at + 1, at, found_alpha, true)
    } else if found_alpha {
        seq![s.subrange(start, at)] + groups_from(s, at + 1, at, false, numeric(s[at]))
    } else {
        groups_from(s, at + 1, start, found_alpha, found_num)
    }
}

/// The groups of `s`: each a value followed by the letters of a shorthand,
/// in the order in which they stand in `s`.
pub open spec fn groups(s: Seq<char>) -> Seq<Seq<char>> {
    groups_from(s, 0, 0, false, false)
}

/// Splits `input` into its groups, each a value followed by the letters of a
/// shorthand.
pub fn split_str_num_alpha_groups<'a>(input: &'a str) -> (out: Vec<&'a str>)
    ensures
        out@.len() == groups(input@).len(),
        forall|k: int| 0 <= k < out@.len() ==> (#[trigger] out@[k])@ == groups(input@)[k],
{
    let mut out: Vec<&'a str> = Vec::new();
    let mut found_alpha = false;
    let mut found_num = false;
    let mut start: usize = 0;
    let mut index: usize = 0;
    let total = input.unicode_len();
    let mut chars = input.chars();
    let ghost s = input@;
    let ghost mut done: Seq<Seq<char>> = Seq::empty();
    loop
        invariant
            s == input@,
            s.len() == total,
            chars.obeys_prophetic_iter_laws(),
            chars.decrease() is Some,
            index <= s.len(),
            s.skip(index as int) == chars.remaining(),
            start <= index,
            out@.len() == done.len(),
            forall|k: int| 0 <= k < out@.len() ==> (#[trigger] out@[k])@ == done[k],
            groups(s) == done + groups_from(s, index as int, start as int, found_alpha, found_num),
        ensures
            index == s.len(),
            start <= index,
            out@.len() == done.len(),
            forall|k: int| 0 <= k < out@.len() ==> (#[trigger] out@[k])@ == done[k],
            groups(s) == done.push(s.subrange(start as int, s.len() as int)),
        decreases chars.decrease()->0,
    {
        match chars.next() {
            Some(character) => {
                assert(character == s[index as int]);
                assert(s.skip(index + 1) == s.skip(index as int).drop_first());
                if is_alphabetic(character) {
                    if !found_alpha {
                        found_alpha = true;
                    }
                } else if is_numeric(character) && !found_num {
                    found_num = true;
                    start = index;
                } else {
                    if found_alpha {
                        found_alpha = false;
                        found_num = is_numeric(character);
                        let group = input.substring_char(start, index);
                        out.push(group);
                        proof {
                            done = done.push(group@);
                        }
                        start = index;
                    }
                }
                index += 1;
            },
            None => {
                assert(s.skip(index as int).len() == 0);
                break ;
            },
        }
    }
    let last = input.substring_char(start, index);
    out.push(last);
    out
}

/// The error of a schema in which a shorthand stands twice.
#[derive(Copy, Clone, Debug)]
pub struct ParamAlreadyExists;

impl ParamAlreadyExists {
    /// The error in words.
    pub fn message(&self) -> (text: String)
        ensures
            text@ == "Parameter already exists"@,
    {
        String::from_str("Parameter already exists")
    }
}

/// The kind of the values of a parameter.
#[derive(Copy, Clone, Debug, PartialEq, Eq, Structural)]
pub enum ParamType {
    /// A number with a fraction.
    Double,
    /// A whole number.
    Int,
}

/// A declared parameter.
#[derive(Clone, Debug)]
pub struct Parameter {
    /// The kind of its values.
    pub _type: ParamType,
    /// The name under which it is written out.
    pub name: String,
    /// Its place in a row.
    pub pos: usize,
}

/// What reading one group has brought, where it has not stored a value.
#[derive(Clone, Debug, PartialEq, Eq)]
pub enum ParamNote {
    /// The group holds no letter, so it names no parameter.
    NoShorthand,
    /// No parameter has the shorthand of the group.
    Unknown,
    /// The value of the whole-number parameter at `pos` is no whole number
    /// that fits in 64 bits.
    Malformed { pos: usize },
    /// The parameter at `pos` takes numbers with a fraction: `text` is for
    /// the caller to read as one and to hand back as it is to be written.
    Double { pos: usize, text: String },
}

/// What reading one group means, as a mathematical value.
pub enum Reading {
    /// The group holds no letter.
    NoShorthand,
    /// No parameter has the shorthand of the group.
    Unknown,
    /// The value of the whole-number parameter at this place is no whole
    /// number that fits in 64 bits.
    Malformed(int),
    /// The parameter at this place takes numbers with a fraction, and this
    /// is the text of the value.
    Double(int, Seq<char>),
    /// The parameter at this place is given this whole number.
    Int(int, i64),
}

/// The place of the first letter of `s`; the length of `s` where it holds
/// none.
pub open spec fn first_letter(s: Seq<char>) -> int
    decreases s.len(),
{
    if s.len() == 0 || alphabetic(s[0]) {
        0
    } else {
        1 + first_letter(s.drop_first())
    }
}

/// `s` with `to` in the place of each `from`.
pub open spec fn replaced(s: Seq<char>, from: char, to: Seq<char>) -> Seq<char>
    decreases s.len(),
{
    if s.len() == 0 {
        s
    } else if s.last() == from {
        replaced(s.drop_last(), from, to) + to
    } else {
        replaced(s.drop_last(), from, to).push(s.last())
    }
}

/// The first place of `key` in `list`.
pub open spec fn place_of(list: Seq<Seq<char>>, key: Seq<char>) -> Option<int>
    decreases list.len(),
{
    if list.len() == 0 {
        None
    } else {
        match place_of(list.drop_last(), key) {
            Some(place) => Some(place),
            None => if list.last() == key {
                Some(list.len() - 1)
            } else {
                None
            },
        }
    }
}

/// What the group `group` means under a schema: the letters from the first
/// one on are the shorthand, and what stands before them, with a point for
/// each underscore, is the value.
pub open spec fn read_group(
    shorthands: Seq<Seq<char>>,
    kinds: Seq<ParamType>,
    group: Seq<char>,
) -> Reading {
    let split = first_letter(group);
    if split >= group.len() {
        Reading::NoShorthand
    } else {
        match place_of(shorthands, group.skip(split)) {
            None => Reading::Unknown,
            Some(pos) => {
                let text = replaced(group.take(split), '_', seq!['.']);
                match kinds[pos] {
                    ParamType::Double => Reading::Double(pos, text),
                    ParamType::Int => match parse_integer(text) {
                        Some(v) => Reading::Int(pos, v),
                        None => Reading::Malformed(pos),
                    },
                }
            },
        }
    }
}

/// The fields of a row after a reading: a whole number is stored at its
/// place, in decimal; any other reading stores nothing.
pub open spec fn after_reading(fields: Seq<Option<Seq<char>>>, reading: Reading) -> Seq<
    Option<Seq<char>>,
> {
    match reading {
        Reading::Int(pos, v) => fields.update(pos, Some(decimal_of(v))),
        _ => fields,
    }
}

/// The fields of a row after the groups `gs` have been read in their order.
pub open spec fn after_groups(
    shorthands: Seq<Seq<char>>,
    kinds: Seq<ParamType>,
    fields: Seq<Option<Seq<char>>>,
    gs: Seq<Seq<char>>,
) -> Seq<Option<Seq<char>>>
    decreases gs.len(),
{
    if gs.len() == 0 {
        fields
    } else {
        after_reading(
            after_groups(shorthands, kinds, fields, gs.drop_last()),
            read_group(shorthands, kinds, gs.last()),
        )
    }
}

/// The readings of the groups `gs` that store no value, in their order.
pub open spec fn notes_of(shorthands: Seq<Seq<char>>, kinds: Seq<ParamType>, gs: Seq<Seq<char>>) -> Seq<
    Reading,
>
    decreases gs.len(),
{
    if gs.len() == 0 {
        Seq::empty()
    } else {
        let before = notes_of(shorthands, kinds, gs.drop_last());
        match read_group(shorthands, kinds, gs.last()) {
            Reading::Int(_, _) => before,
            other => before.push(other),
        }
    }
}

/// `note` tells `reading`.
pub open spec fn tells(note: ParamNote, reading: Reading) -> bool {
    match (note, reading) {
        (ParamNote::NoShorthand, Reading::NoShorthand) => true,
        (ParamNote::Unknown, Reading::Unknown) => true,
        (ParamNote::Malformed { pos }, Reading::Malformed(place)) => pos == place,
        (ParamNote::Double { pos, text }, Reading::Double(place, value)) => pos == place && text@
            == value,
        _ => false,
    }
}

/// `str::replace` with a character for its pattern: `text` with `to` in the
/// place of each `from`.
#[verifier::external_body]
fn replace(text: &str, from: char, to: &str) -> (out: String)
    ensures
        out@ == replaced(text@, from, to@),
{
    text.replace(from, to)
}

/// The place of the first letter of `text`, counted in characters.
fn find_letter(text: &str) -> (place: usize)
    ensures
        place == first_letter(text@),
        place <= text@.len(),
{
    let total = text.unicode_len();
    let ghost s = text@;
    let mut chars = text.chars();
    let mut place: usize = 0;
    loop
        invariant_except_break
            s.skip(place as int) == chars.remaining(),
        invariant
            s == text@,
            s.len() == total,
            chars.obeys_prophetic_iter_laws(),
            chars.decrease() is Some,
            place <= s.len(),
            first_letter(s) == place + first_letter(s.skip(place as int)),
        ensures
            place <= s.len(),
            first_letter(s) == place,
        decreases chars.decrease()->0,
    {
        match chars.next() {
            Some(c) => {
                assert(c == s.skip(place as int)[0]);
                assert(s.skip(place + 1) == s.skip(place as int).drop_first());
                if is_alphabetic(c) {
                    break ;
                }
                place += 1;
            },
            None => {
                assert(s.skip(place as int).len() == 0);
                break ;
            },
        }
    }
    proof {
        assert(s.skip(0) == s);
    }
    place
}

/// Where `key` has a place among the first `n` of `list`, that is its first
/// place in all of `list`.
proof fn lemma_place_stays(list: Seq<Seq<char>>, key: Seq<char>, n: int)
    requires
        0 <= n <= list.len(),
        place_of(list.take(n), key) is Some,
    ensures
        place_of(list, key) == place_of(list.take(n), key),
    decreases list.len(),
{
    if n < list.len() {
        assert(list.drop_last().take(n) == list.take(n));
        lemma_place_stays(list.drop_last(), key, n);
    } else {
        assert(list.take(n) == list);
    }
}

/// A place that `place_of` gives is a place of `key` in `list`.
proof fn lemma_place_holds(list: Seq<Seq<char>>, key: Seq<char>)
    ensures
        place_of(list, key) matches Some(place) ==> 0 <= place < list.len() && list[place] == key,
        place_of(list, key) is None ==> forall|i: int| 0 <= i < list.len() ==> list[i] != key,
    decreases list.len(),
{
    if list.len() > 0 {
        lemma_place_holds(list.drop_last(), key);
        assert forall|i: int| 0 <= i < list.len() - 1 implies list[i] == list.drop_last()[i] by {}
    }
}

/// As many fields as `n`, none of them with a value.
pub open spec fn blank(n: nat) -> Seq<Option<Seq<char>>> {
    Seq::new(n, |i: int| None)
}

/// The text of each field, empty for a field without a value.
pub open spec fn shown(fields: Seq<Option<Seq<char>>>) -> Seq<Seq<char>> {
    fields.map_values(
        |field: Option<Seq<char>>|
            match field {
                Some(text) => text,
                None => Seq::empty(),
            },
    )
}

/// The shorthands of a list of declarations.
pub open spec fn shorthands_in(list: Seq<(String, String, ParamType)>) -> Seq<Seq<char>> {
    list.map_values(|entry: (String, String, ParamType)| entry.0@)
}

/// The names of a list of declarations.
pub open spec fn names_in(list: Seq<(String, String, ParamType)>) -> Seq<Seq<char>> {
    list.map_values(|entry: (String, String, ParamType)| entry.1@)
}

/// The kinds of a list of declarations.
pub open spec fn kinds_in(list: Seq<(String, String, ParamType)>) -> Seq<ParamType> {
    list.map_values(|entry: (String, String, ParamType)| entry.2)
}

/// The shorthand at place `k` of `list` stands at an earlier place too.
pub open spec fn repeats_at(list: Seq<Seq<char>>, k: int) -> bool {
    place_of(list.take(k), list[k]) is Some
}

/// A schema of parameters, and the values read for them from the latest
/// encoded string.
pub struct Parameters {
    param_list: Vec<(String, Parameter)>,
    current: Vec<Option<String>>,
}

impl Parameters {
    /// The shorthands of the parameters, in the order of their places.
    pub closed spec fn shorthands(&self) -> Seq<Seq<char>> {
        Seq::new(self.param_list@.len(), |i: int| self.param_list@[i].0@)
    }

    /// The names of the parameters, in the order of their places.
    pub closed spec fn names(&self) -> Seq<Seq<char>> {
        Seq::new(self.param_list@.len(), |i: int| self.param_list@[i].1.name@)
    }

    /// The kinds of the parameters, in the order of their places.
    pub closed spec fn kinds(&self) -> Seq<ParamType> {
        Seq::new(self.param_list@.len(), |i: int| self.param_list@[i].1._type)
    }

    /// The places that the parameters hold for themselves.
    pub closed spec fn places(&self) -> Seq<int> {
        Seq::new(self.param_list@.len(), |i: int| self.param_list@[i].1.pos as int)
    }

    /// The fields of the current row: for each value that was read, its text.
    pub closed spec fn fields(&self) -> Seq<Option<Seq<char>>> {
        Seq::new(
            self.current@.len(),
            |i: int|
                match self.current@[i] {
                    Some(text) => Some(text@),
                    None => None,
                },
        )
    }

    /// Each parameter knows its place, no shorthand stands twice, and the
    /// current row is empty or has a field for each parameter.
    pub open spec fn wf(&self) -> bool {
        &&& self.names().len() == self.shorthands().len()
        &&& self.kinds().len() == self.shorthands().len()
        &&& self.places().len() == self.shorthands().len()
        &&& forall|i: int| 0 <= i < self.places().len() ==> #[trigger] self.places()[i] == i
        &&& forall|k: int| 0 <= k < self.shorthands().len() ==> !repeats_at(self.shorthands(), k)
        &&& self.fields().len() == 0 || self.fields().len() == self.shorthands().len()
    }

    /// A schema without parameters, and an empty row.
    pub fn new() -> (fresh: Self)
        ensures
            fresh.wf(),
            fresh.shorthands().len() == 0,
            fresh.fields().len() == 0,
    {
        Parameters { param_list: Vec::new(), current: Vec::new() }
    }

    /// The number of parameters.
    pub fn len(&self) -> (count: usize)
        ensures
            count == self.shorthands().len(),
    {
        self.param_list.len()
    }

    /// The place of the parameter with the shorthand `key`.
    fn lookup(&self, key: &String) -> (out: Option<usize>)
        ensures
            out is None <==> place_of(self.shorthands(), key@) is None,
            out matches Some(pos) ==> place_of(self.shorthands(), key@) == Some(pos as int) && pos
                < self.shorthands().len(),
    {
        let ghost list = self.shorthands();
        let mut at: usize = 0;
        assert(list.take(0).len() == 0);
        while at < self.param_list.len()
            invariant
                list == self.shorthands(),
                list.len() == self.param_list@.len(),
                at <= list.len(),
                place_of(list.take(at as int), key@) is None,
            decreases list.len() - at,
        {
            assert(list.take(at + 1).drop_last() == list.take(at as int));
            assert(list.take(at + 1).last() == self.param_list@[at as int].0@);
            if self.param_list[at].0 == *key {
                proof {
                    lemma_place_stays(list, key@, at + 1);
                }
                return Some(at);
            }
            at += 1;
        }
        assert(list.take(at as int) == list);
        None
    }

    /// Declares the parameters of `params`, in their order, for a schema that
    /// has none yet. Fails at the first shorthand that stands a second time,
    /// with the parameters before it declared.
    pub fn set_params_list<I: Iterator<Item = (String, String, ParamType)>>(
        &mut self,
        params: I,
    ) -> (out: Result<(), ParamAlreadyExists>)
        requires
            old(self).wf(),
            old(self).shorthands().len() == 0,
            params.obeys_prophetic_iter_laws(),
            params.decrease() is Some,
        ensures
            final(self).wf(),
            final(self).fields() == old(self).fields(),
            out is Ok <==> forall|k: int|
                0 <= k < params.remaining().len() ==> !repeats_at(
                    shorthands_in(params.remaining()),
                    k,
                ),
            exists|n: int|
                {
                    &&& 0 <= n <= params.remaining().len()
                    &&& out is Ok <==> n == params.remaining().len()
                    &&& out is Err ==> repeats_at(shorthands_in(params.remaining()), n)
                    &&& forall|k: int|
                        0 <= k < n ==> !repeats_at(shorthands_in(params.remaining()), k)
                    &&& final(self).shorthands() == #[trigger] shorthands_in(
                        params.remaining(),
                    ).take(n)
                    &&& final(self).names() == names_in(params.remaining()).take(n)
                    &&& final(self).kinds() == kinds_in(params.remaining()).take(n)
                },
    {
        let ghost all = params.remaining();
        let ghost list = shorthands_in(all);
        let mut rest = params;
        let ghost mut n: int = 0;
        loop
            invariant
                all == params.remaining(),
                list == shorthands_in(all),
                rest.obeys_prophetic_iter_laws(),
                rest.decrease() is Some,
                0 <= n <= all.len(),
                all.skip(n) == rest.remaining(),
                self.wf(),
                self.fields() == old(self).fields(),
                self.fields().len() == 0,
                forall|k: int| 0 <= k < n ==> !repeats_at(list, k),
                self.shorthands() == list.take(n),
                self.names() == names_in(all).take(n),
                self.kinds() == kinds_in(all).take(n),
                self.param_list@.len() == n,
            ensures
                n == all.len(),
                self.wf(),
                self.fields() == old(self).fields(),
                forall|k: int| 0 <= k < n ==> !repeats_at(list, k),
                self.shorthands() == list.take(n),
                self.names() == names_in(all).take(n),
                self.kinds() == kinds_in(all).take(n),
            decreases rest.decrease()->0,
        {
            match rest.next() {
                Some(entry) => {
                    assert(entry == all[n]);
                    assert(all.skip(n + 1) == all.skip(n).drop_first());
                    let (shorthand, name, _type) = entry;
                    assert(list[n] == shorthand@);
                    if self.lookup(&shorthand).is_some() {
                        proof {
                            assert(repeats_at(list, n));
                            assert(self.shorthands() == shorthands_in(all).take(n));
                        }
                        return Err(ParamAlreadyExists);
                    }
                    assert(!repeats_at(list, n));
                    let ghost places = self.places();
                    let pos = self.param_list.len();
                    let param = Parameter { pos, name, _type };
                    self.param_list.push((shorthand, param));
                    proof {
                        assert(self.shorthands() =~= list.take(n + 1));
                        assert(self.names() =~= names_in(all).take(n + 1));
                        assert(self.kinds() =~= kinds_in(all).take(n + 1));
                        assert(self.fields() =~= old(self).fields());
                        assert(self.places() =~= places.push(n));
                        assert forall|i: int| 0 <= i < self.places().len() implies #[trigger] self.places()[i]
                            == i by {
                            if i < n {
                                assert(places[i] == i);
                            }
                        }
                        assert forall|k: int| 0 <= k < n + 1 implies !repeats_at(
                            self.shorthands(),
                            k,
                        ) by {
                            assert(list.take(n + 1).take(k) == list.take(k));
                            assert(list.take(n + 1)[k] == list[k]);
                            assert(!repeats_at(list, k));
                        }
                        n = n + 1;
                    }
                },
                None => {
                    assert(all.skip(n).len() == 0);
                    break ;
                },
            }
        }
        proof {
            assert(list.take(n) == list);
        }
        Ok(())
    }
}

impl Parameters {
    /// Reads one group: stores the value of a whole number at the place of
    /// its parameter, and tells of any other reading.
    fn update_single_param(&mut self, input: &str) -> (out: Option<ParamNote>)
        requires
            old(self).wf(),
            old(self).fields().len() == old(self).shorthands().len(),
        ensures
            final(self).wf(),
            final(self).shorthands() == old(self).shorthands(),
            final(self).names() == old(self).names(),
            final(self).kinds() == old(self).kinds(),
            final(self).fields().len() == old(self).fields().len(),
            final(self).fields() == after_reading(
                old(self).fields(),
                read_group(old(self).shorthands(), old(self).kinds(), input@),
            ),
            out is None <==> read_group(old(self).shorthands(), old(self).kinds(), input@) is Int,
            out matches Some(note) ==> tells(
                note,
                read_group(old(self).shorthands(), old(self).kinds(), input@),
            ),
    {
        let total = input.unicode_len();
        let middle = find_letter(input);
        if middle >= total {
            return Some(ParamNote::NoShorthand);
        }
        let value = input.substring_char(0, middle);
        let parameter = input.substring_char(middle, total);
        let key = String::from_str(parameter);
        proof {
            assert(key@ == input@.skip(middle as int));
            assert(value@ == input@.take(middle as int));
            lemma_place_holds(self.shorthands(), key@);
        }
        match self.lookup(&key) {
            None => Some(ParamNote::Unknown),
            Some(pos) => {
                proof {
                    reveal_strlit(".");
                    assert("."@ =~= seq!['.']);
                }
                let text = replace(value, '_', ".");
                match self.param_list[pos].1._type {
                    ParamType::Double => Some(ParamNote::Double { pos, text }),
                    ParamType::Int => match read_integer(text.as_str()) {
                        Some(v) => {
                            let ghost before = self.fields();
                            let mut rendered = String::new();
                            write_decimal(&mut rendered, v);
                            self.current.set(pos, Some(rendered));
                            proof {
                                assert(rendered@ =~= decimal_of(v));
                                assert(self.fields() =~= before.update(
                                    pos as int,
                                    Some(decimal_of(v)),
                                ));
                            }
                            None
                        },
                        None => Some(ParamNote::Malformed { pos }),
                    },
                }
            },
        }
    }

    /// Reads the values of `input` into a fresh row: every field is emptied,
    /// then the groups of `input` are read in their order. Returns what the
    /// groups that stored no value have to tell, in the order of the groups.
    pub fn update_current(&mut self, input: &str) -> (notes: Vec<ParamNote>)
        requires
            old(self).wf(),
        ensures
            final(self).wf(),
            final(self).shorthands() == old(self).shorthands(),
            final(self).names() == old(self).names(),
            final(self).kinds() == old(self).kinds(),
            final(self).fields() == after_groups(
                old(self).shorthands(),
                old(self).kinds(),
                blank(old(self).shorthands().len()),
                groups(input@),
            ),
            notes@.len() == notes_of(
                old(self).shorthands(),
                old(self).kinds(),
                groups(input@),
            ).len(),
            forall|k: int|
                0 <= k < notes@.len() ==> tells(
                    #[trigger] notes@[k],
                    notes_of(old(self).shorthands(), old(self).kinds(), groups(input@))[k],
                ),
    {
        let ghost shorthands = self.shorthands();
        let ghost kinds = self.kinds();
        self.current.clear();
        let count = self.param_list.len();
        let mut filled: usize = 0;
        while filled < count
            invariant
                filled <= count,
                count == self.param_list@.len(),
                self.current@.len() == filled,
                self.fields() == blank(filled as nat),
                self.shorthands() == shorthands,
                self.names() == old(self).names(),
                self.kinds() == kinds,
                self.places() == old(self).places(),
            decreases count - filled,
        {
            let ghost before = self.fields();
            let ghost held = self.current@;
            self.current.push(None);
            filled += 1;
            proof {
                assert forall|i: int| 0 <= i < filled implies #[trigger] self.fields()[i]
                    == None::<Seq<char>> by {
                    if i < filled - 1 {
                        assert(before[i] == None::<Seq<char>>);
                        assert(self.current@[i] == held[i]);
                    }
                }
                assert(self.fields() =~= blank(filled as nat));
            }
        }
        let parts = split_str_num_alpha_groups(input);
        let ghost gs = groups(input@);
        let mut notes: Vec<ParamNote> = Vec::new();
        let mut at: usize = 0;
        assert(gs.take(0).len() == 0);
        while at < parts.len()
            invariant
                at <= parts@.len(),
                parts@.len() == gs.len(),
                forall|k: int| 0 <= k < parts@.len() ==> (#[trigger] parts@[k])@ == gs[k],
                self.wf(),
                self.shorthands() == shorthands,
                self.names() == old(self).names(),
                self.kinds() == kinds,
                self.fields().len() == shorthands.len(),
                self.fields() == after_groups(
                    shorthands,
                    kinds,
                    blank(shorthands.len()),
                    gs.take(at as int),
                ),
                notes@.len() == notes_of(shorthands, kinds, gs.take(at as int)).len(),
                forall|k: int|
                    0 <= k < notes@.len() ==> tells(
                        #[trigger] notes@[k],
                        notes_of(shorthands, kinds, gs.take(at as int))[k],
                    ),
            decreases parts@.len() - at,
        {
            proof {
                assert(gs.take(at + 1).drop_last() == gs.take(at as int));
                assert(gs.take(at + 1).last() == gs[at as int]);
            }
            match self.update_single_param(parts[at]) {
                Some(note) => {
                    notes.push(note);
                },
                None => {},
            }
            at += 1;
        }
        assert(gs.take(at as int) == gs);
        notes
    }

    /// Stores `rendered` as the value of the parameter at `pos`, where the
    /// current row has a field for it and the parameter takes numbers with a
    /// fraction. Returns whether it did.
    pub fn record_double(&mut self, pos: usize, rendered: String) -> (stored: bool)
        requires
            old(self).wf(),
        ensures
            final(self).wf(),
            final(self).shorthands() == old(self).shorthands(),
            final(self).names() == old(self).names(),
            final(self).kinds() == old(self).kinds(),
            stored <==> pos < old(self).fields().len() && old(self).kinds()[pos as int]
                == ParamType::Double,
            stored ==> final(self).fields() == old(self).fields().update(
                pos as int,
                Some(rendered@),
            ),
            !stored ==> final(self).fields() == old(self).fields(),
    {
        if pos >= self.current.len() {
            return false;
        }
        match self.param_list[pos].1._type {
            ParamType::Double => {
                let ghost before = self.fields();
                self.current.set(pos, Some(rendered));
                assert(self.fields() =~= before.update(pos as int, Some(rendered@)));
                true
            },
            ParamType::Int => false,
        }
    }

    /// Appends the names of the parameters to `f`, in the order of their
    /// places, each followed by a comma.
    pub fn write_headers(&self, f: &mut String)
        requires
            self.wf(),
        ensures
            final(f)@ == old(f)@ + terminated(self.names(), ','),
    {
        let ghost names = self.names();
        let mut at: usize = 0;
        assert(names.take(0).len() == 0);
        while at < self.param_list.len()
            invariant
                names == self.names(),
                names.len() == self.param_list@.len(),
                at <= names.len(),
                f@ == old(f)@ + terminated(names.take(at as int), ','),
            decreases names.len() - at,
        {
            let ghost sofar = f@;
            proof {
                reveal_strlit(",");
                assert(names.take(at + 1).drop_last() == names.take(at as int));
                assert(names.take(at + 1).last() == self.param_list@[at as int].1.name@);
            }
            f.append(self.param_list[at].1.name.as_str());
            f.append(",");
            assert(f@ =~= old(f)@ + terminated(names.take(at + 1), ','));
            at += 1;
        }
        assert(names.take(at as int) == names);
    }

    /// Appends the current row to `f`: the text of each field, nothing for a
    /// field without a value, each followed by a comma.
    pub fn write_as_line(&self, f: &mut String)
        ensures
            final(f)@ == old(f)@ + terminated(shown(self.fields()), ','),
    {
        let ghost texts = shown(self.fields());
        let mut at: usize = 0;
        assert(texts.take(0).len() == 0);
        while at < self.current.len()
            invariant
                texts == shown(self.fields()),
                texts.len() == self.current@.len(),
                at <= texts.len(),
                f@ == old(f)@ + terminated(texts.take(at as int), ','),
            decreases texts.len() - at,
        {
            proof {
                reveal_strlit(",");
                assert(texts.take(at + 1).drop_last() == texts.take(at as int));
                assert(texts.take(at + 1).last() == texts[at as int]);
            }
            match &self.current[at] {
                Some(value) => {
                    f.append(value.as_str());
                    f.append(",");
                },
                None => {
                    f.append(",");
                },
            }
            assert(f@ =~= old(f)@ + terminated(texts.take(at + 1), ','));
            at += 1;
        }
        assert(texts.take(at as int) == texts);
    }
}

} // verus!
