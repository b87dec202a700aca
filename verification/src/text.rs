//! Integers as decimal text, and lists of text fields with commas.

use vstd::prelude::*;
use vstd::std_specs::iter::IteratorSpec;
use vstd::string::StringExecFns;

verus! {

/// The character for a single decimal digit.
pub open spec fn digit(d: int) -> char {
    if d == 0 {
        '0'
    } else if d == 1 {
        '1'
    } else if d == 2 {
        '2'
    } else if d == 3 {
        '3'
    } else if d == 4 {
        '4'
    } else if d == 5 {
        '5'
    } else if d == 6 {
        '6'
    } else if d == 7 {
        '7'
    } else if d == 8 {
        '8'
    } else {
        '9'
    }
}

/// The decimal digits of `n`, without leading zeros.
pub open spec fn digits(n: nat) -> Seq<char>
    decreases n,
{
    if n < 10 {
        seq![digit(n as int)]
    } else {
        digits(n / 10).push(digit((n % 10) as int))
    }
}

/// `v` in decimal: a minus sign for a negative number, then the digits of its
/// magnitude.
pub open spec fn decimal(v: int) -> Seq<char> {
    if v < 0 {
        seq!['-'] + digits((-v) as nat)
    } else {
        digits(v as nat)
    }
}

/// The machine integer `v` in decimal.
pub open spec fn decimal_of(v: i64) -> Seq<char> {
    decimal(v as int)
}

/// The fields of `parts` with `sep` between each two of them.
pub open spec fn separated(parts: Seq<Seq<char>>, sep: char) -> Seq<char>
    decreases parts.len(),
{
    if parts.len() == 0 {
        Seq::empty()
    } else if parts.len() == 1 {
        parts[0]
    } else {
        separated(parts.drop_last(), sep) + seq![sep] + parts.last()
    }
}

/// The fields of `parts` with `sep` after each of them.
pub open spec fn terminated(parts: Seq<Seq<char>>, sep: char) -> Seq<char>
    decreases parts.len(),
{
    if parts.len() == 0 {
        Seq::empty()
    } else {
        terminated(parts.drop_last(), sep) + parts.last() + seq![sep]
    }
}

fn digit_text(d: u64) -> (text: &'static str)
    requires
        d < 10,
    ensures
        text@ == seq![digit(d as int)],
{
    proof {
        reveal_strlit("0");
        reveal_strlit("1");
        reveal_strlit("2");
        reveal_strlit("3");
        reveal_strlit("4");
        reveal_strlit("5");
        reveal_strlit("6");
        reveal_strlit("7");
        reveal_strlit("8");
        reveal_strlit("9");
    }
    let text = if d == 0 {
        "0"
    } else if d == 1 {
        "1"
    } else if d == 2 {
        "2"
    } else if d == 3 {
        "3"
    } else if d == 4 {
        "4"
    } else if d == 5 {
        "5"
    } else if d == 6 {
        "6"
    } else if d == 7 {
        "7"
    } else if d == 8 {
        "8"
    } else {
        "9"
    };
    assert(text@ =~= seq![digit(d as int)]);
    text
}

/// Appends the decimal digits of `n` to `writer`.
pub fn write_digits(writer: &mut String, n: u64)
    ensures
        final(writer)@ == old(writer)@ + digits(n as nat),
    decreases n,
{
    if n >= 10 {
        write_digits(writer, n / 10);
    }
    writer.append(digit_text(n % 10));
}

/// Appends `v` in decimal to `writer`.
pub fn write_decimal(writer: &mut String, v: i64)
    ensures
        final(writer)@ == old(writer)@ + decimal(v as int),
{
    if v < 0 {
        proof {
            reveal_strlit("-");
        }
        writer.append("-");
        assert(writer@ =~= old(writer)@ + seq!['-']);
        let magnitude: u64 = ((-(v + 1)) as u64) + 1;
        write_digits(writer, magnitude);
        assert(writer@ =~= old(writer)@ + decimal(v as int));
    } else {
        write_digits(writer, v as u64);
    }
}

/// Each of `values` in decimal.
pub open spec fn decimals(values: Seq<i64>) -> Seq<Seq<char>> {
    values.map_values(|v: i64| decimal_of(v))
}

/// Appends `values` to `writer`, each in decimal, with a comma between each
/// two of them.
pub fn write_row(writer: &mut String, values: &[i64])
    ensures
        final(writer)@ == old(writer)@ + separated(decimals(values@), ','),
{
    let ghost before = writer@;
    let mut at: usize = 0;
    assert(decimals(values@.take(0)).len() == 0);
    while at < values.len()
        invariant
            at <= values@.len(),
            writer@ =~= before + separated(decimals(values@.take(at as int)), ','),
        decreases values@.len() - at,
    {
        let ghost sofar = writer@;
        if at > 0 {
            proof {
                reveal_strlit(",");
            }
            writer.append(",");
            assert(writer@ =~= sofar + seq![',']);
        }
        write_decimal(writer, values[at]);
        proof {
            let earlier = decimals(values@.take(at as int));
            let now = decimals(values@.take(at + 1));
            assert(now.drop_last() =~= earlier);
            assert(now.last() == decimal_of(values@[at as int]));
            if at > 0 {
                assert(separated(now, ',') == separated(earlier, ',') + seq![','] + now.last());
                assert(writer@ =~= before + separated(now, ','));
            } else {
                assert(earlier.len() == 0);
                assert(separated(earlier, ',') =~= Seq::<char>::empty());
                assert(separated(now, ',') == now[0]);
                assert(writer@ =~= before + separated(now, ','));
            }
        }
        at += 1;
    }
    assert(values@.take(at as int) == values@);
}

/// Whether `c` is one of the ten decimal digits.
pub open spec fn is_digit(c: char) -> bool {
    '0' <= c <= '9'
}

/// The number that the decimal digit `c` stands for.
pub open spec fn digit_value(c: char) -> nat {
    (c as int - '0' as int) as nat
}

/// Every character of `s` is a decimal digit.
pub open spec fn all_digits(s: Seq<char>) -> bool {
    forall|i: int| 0 <= i < s.len() ==> is_digit(#[trigger] s[i])
}

/// The number that the decimal digits `s` stand for.
pub open spec fn number(s: Seq<char>) -> nat
    decreases s.len(),
{
    if s.len() == 0 {
        0
    } else {
        number(s.drop_last()) * 10 + digit_value(s.last())
    }
}

/// The integer that `s` stands for in decimal: an optional sign, then one
/// digit or more, with any number of leading zeros. `None` where `s` is not of
/// this form or the integer does not fit in 64 bits.
pub open spec fn parse_integer(s: Seq<char>) -> Option<i64> {
    let negative = s.len() > 0 && s[0] == '-';
    let signed = s.len() > 0 && (s[0] == '-' || s[0] == '+');
    let body = if signed {
        s.drop_first()
    } else {
        s
    };
    if body.len() == 0 || !all_digits(body) {
        None
    } else if negative {
        if number(body) <= 0x8000_0000_0000_0000 {
            Some((-(number(body) as int)) as i64)
        } else {
            None
        }
    } else {
        if number(body) <= i64::MAX {
            Some(number(body) as i64)
        } else {
            None
        }
    }
}

/// The number of a run of digits is at least the number of each of its
/// beginnings.
proof fn lemma_number_grows(s: Seq<char>, n: int)
    requires
        0 <= n <= s.len(),
    ensures
        number(s.take(n)) <= number(s),
    decreases s.len(),
{
    if n < s.len() {
        lemma_number_grows(s.drop_last(), n);
        assert(s.drop_last().take(n) == s.take(n));
    } else {
        assert(s.take(n) == s);
    }
}

/// The integer that `text` stands for in decimal, as `parse_integer` says.
pub fn read_integer(text: &str) -> (out: Option<i64>)
    ensures
        out == parse_integer(text@),
{
    let ghost s = text@;
    let mut chars = text.chars();
    let mut negative = false;
    let mut magnitude: u64 = 0;
    let mut first = true;
    let mut any = false;
    let ghost mut signed = false;
    let ghost mut got: Seq<char> = Seq::empty();
    let ghost mut at: int = 0;
    loop
        invariant
            s == text@,
            chars.obeys_prophetic_iter_laws(),
            chars.decrease() is Some,
            0 <= at <= s.len(),
            s.skip(at) == chars.remaining(),
            first <==> at == 0,
            first ==> !signed && !negative && !any && got.len() == 0 && magnitude == 0,
            signed <==> at > 0 && (s[0] == '-' || s[0] == '+'),
            negative <==> at > 0 && s[0] == '-',
            any <==> got.len() > 0,
            signed ==> got == s.subrange(1, at),
            !signed ==> got == s.take(at),
            all_digits(got),
            number(got) == magnitude,
            negative ==> magnitude <= 0x8000_0000_0000_0000,
            !negative ==> magnitude <= i64::MAX,
        ensures
            at == s.len(),
            signed <==> s.len() > 0 && (s[0] == '-' || s[0] == '+'),
            negative <==> s.len() > 0 && s[0] == '-',
            any <==> got.len() > 0,
            signed ==> got == s.drop_first(),
            !signed ==> got == s,
            all_digits(got),
            number(got) == magnitude,
            negative ==> magnitude <= 0x8000_0000_0000_0000,
            !negative ==> magnitude <= i64::MAX,
        decreases chars.decrease()->0,
    {
        match chars.next() {
            Some(c) => {
                assert(c == s[at]);
                assert(s.skip(at + 1) == s.skip(at).drop_first());
                if first && (c == '-' || c == '+') {
                    negative = c == '-';
                    proof {
                        signed = true;
                        assert(s.subrange(1, 1) =~= got);
                    }
                } else {
                    let ghost body = if signed {
                        s.drop_first()
                    } else {
                        s
                    };
                    let ghost place = got.len() as int;
                    assert(body[place] == c);
                    if !(c >= '0' && c <= '9') {
                        assert(!is_digit(body[place]));
                        return None;
                    }
                    let d: u64 = (c as u32 - '0' as u32) as u64;
                    let limit: u64 = if negative {
                        0x8000_0000_0000_0000
                    } else {
                        0x7fff_ffff_ffff_ffff
                    };
                    let ghost longer = got.push(c);
                    proof {
                        assert(longer.drop_last() == got);
                        assert(body.take(place + 1) == longer);
                        assert(number(longer) == magnitude * 10 + d);
                    }
                    if magnitude > (limit - d) / 10 {
                        proof {
                            assert(number(longer) > limit);
                            lemma_number_grows(body, place + 1);
                        }
                        return None;
                    }
                    magnitude = magnitude * 10 + d;
                    any = true;
                    proof {
                        got = longer;
                    }
                }
                first = false;
                proof {
                    at = at + 1;
                }
            },
            None => {
                assert(s.skip(at).len() == 0);
                break ;
            },
        }
    }
    if !any {
        None
    } else if negative {
        if magnitude == 0x8000_0000_0000_0000 {
            Some(i64::MIN)
        } else {
            Some(-(magnitude as i64))
        }
    } else {
        Some(magnitude as i64)
    }
}

} // verus!
