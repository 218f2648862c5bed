//! Calibration lines: digits spelled out in a text, and the value that the
//! first and the last digit of each line make.

use crate::text::{
    digit_char, digit_of, digit_to_char, digit_value, is_decimal, is_digit, lemma_line_end,
    line_end, starts_with_word, to_chars, word_at,
};
use vstd::prelude::*;

verus! {

/// The English name of the digit `d`, for `d` from one to nine.
pub open spec fn digit_word(d: int) -> Seq<char> {
    if d == 1 {
        seq!['o', 'n', 'e']
    } else if d == 2 {
        seq!['t', 'w', 'o']
    } else if d == 3 {
        seq!['t', 'h', 'r', 'e', 'e']
    } else if d == 4 {
        seq!['f', 'o', 'u', 'r']
    } else if d == 5 {
        seq!['f', 'i', 'v', 'e']
    } else if d == 6 {
        seq!['s', 'i', 'x']
    } else if d == 7 {
        seq!['s', 'e', 'v', 'e', 'n']
    } else if d == 8 {
        seq!['e', 'i', 'g', 'h', 't']
    } else {
        seq!['n', 'i', 'n', 'e']
    }
}

/// The least digit from `from` to nine whose name stands at `pos`, or zero
/// if there is none.
pub open spec fn spelled_from(s: Seq<char>, pos: int, from: int) -> int
    decreases 10 - from,
{
    if from > 9 {
        0
    } else if word_at(s, pos, digit_word(from)) {
        from
    } else {
        spelled_from(s, pos, from + 1)
    }
}

/// The digit from one to nine whose name stands at `pos`, or zero if there
/// is none.
pub open spec fn spelled_at(s: Seq<char>, pos: int) -> int {
    spelled_from(s, pos, 1)
}

/// The character of the normalized text at `pos`: the digit whose name
/// begins there, and else the character of `s`.
pub open spec fn normalized_at(s: Seq<char>, pos: int) -> char {
    if spelled_at(s, pos) != 0 {
        digit_char(spelled_at(s, pos))
    } else {
        s[pos]
    }
}

/// The text with a digit in each place where the name of a digit begins.
/// The other characters stay, those of the names too.
pub open spec fn normalized(s: Seq<char>) -> Seq<char> {
    Seq::new(s.len(), |pos: int| normalized_at(s, pos))
}

/// `spelled_from` gives a digit whose name stands at `pos`, and the least.
proof fn lemma_spelled_from(s: Seq<char>, pos: int, from: int)
    requires
        1 <= from <= 10,
    ensures
        spelled_from(s, pos, from) == 0 || from <= spelled_from(s, pos, from) <= 9,
        spelled_from(s, pos, from) != 0 ==> word_at(s, pos, digit_word(spelled_from(s, pos, from))),
        forall|d: int|
            from <= d <= 9 && word_at(s, pos, #[trigger] digit_word(d)) ==> spelled_from(
                s,
                pos,
                from,
            ) != 0 && spelled_from(s, pos, from) <= d,
    decreases 10 - from,
{
    if from <= 9 && !word_at(s, pos, digit_word(from)) {
        lemma_spelled_from(s, pos, from + 1);
    }
}

/// The names of two digits do not begin in one place: where the name of `d`
/// stands, `d` is the digit spelled there.
pub proof fn lemma_spelled_digit(s: Seq<char>, pos: int, d: int)
    requires
        1 <= d <= 9,
        word_at(s, pos, digit_word(d)),
    ensures
        spelled_at(s, pos) == d,
{
    lemma_spelled_from(s, pos, 1);
}

/// The name of the digit `d`.
fn digit_name(d: u8) -> (r: &'static str)
    requires
        1 <= d <= 9,
    ensures
        r@ == digit_word(d as int),
{
    proof {
        reveal_strlit("one");
        reveal_strlit("two");
        reveal_strlit("three");
        reveal_strlit("four");
        reveal_strlit("five");
        reveal_strlit("six");
        reveal_strlit("seven");
        reveal_strlit("eight");
        reveal_strlit("nine");
    }
    let r = if d == 1 {
        "one"
    } else if d == 2 {
        "two"
    } else if d == 3 {
        "three"
    } else if d == 4 {
        "four"
    } else if d == 5 {
        "five"
    } else if d == 6 {
        "six"
    } else if d == 7 {
        "seven"
    } else if d == 8 {
        "eight"
    } else {
        "nine"
    };
    r
}

/// Adds `c` at the end of `text`. This is `String::push` of std, taken on
/// trust: nothing here proves that the string grows by just that character.
#[verifier::external_body]
fn push_char(text: &mut String, c: char)
    ensures
        final(text)@ == old(text)@.push(c),
{
    text.push(c);
}

/// The names of the digits from one to nine, in that order.
fn digit_names() -> (names: Vec<Vec<char>>)
    ensures
        names.len() == 9,
        forall|d: int| 1 <= d <= 9 ==> (#[trigger] names@[d - 1])@ == digit_word(d),
{
    let mut names: Vec<Vec<char>> = Vec::new();
    let mut d: u8 = 1;
    while d <= 9
        invariant
            1 <= d <= 10,
            names.len() == d - 1,
            forall|e: int| 1 <= e < d ==> (#[trigger] names@[e - 1])@ == digit_word(e),
        decreases 10 - d,
    {
        names.push(to_chars(digit_name(d)));
        d += 1;
    }
    names
}

/// The digit from one to nine whose name stands at `pos`, or zero if there
/// is none.
fn spelled_digit(chars: &[char], pos: usize, names: &Vec<Vec<char>>) -> (d: u8)
    requires
        names.len() == 9,
        forall|d: int| 1 <= d <= 9 ==> (#[trigger] names@[d - 1])@ == digit_word(d),
    ensures
        d == spelled_at(chars@, pos as int),
        d <= 9,
{
    let mut d: u8 = 1;
    while d <= 9
        invariant
            names.len() == 9,
            forall|d: int| 1 <= d <= 9 ==> (#[trigger] names@[d - 1])@ == digit_word(d),
            1 <= d <= 10,
            spelled_at(chars@, pos as int) == spelled_from(chars@, pos as int, d as int),
        decreases 10 - d,
    {
        if starts_with_word(chars, pos, names[(d - 1) as usize].as_slice()) {
            return d;
        }
        d += 1;
    }
    0
}

/// Writes a digit in each place of `input` where the name of a digit from
/// one to nine begins; every other character, those of the names too, stays
/// as it is. So `eightwo` becomes `8igh2wo`.
pub fn normalize_input(input: &str) -> (result: String)
    ensures
        result@ == normalized(input@),
{
    let chars = to_chars(input);
    let names = digit_names();
    let ghost s = chars@;
    let mut result = String::new();
    let mut pos: usize = 0;
    while pos < chars.len()
        invariant
            s == chars@,
            s == input@,
            names.len() == 9,
            forall|d: int| 1 <= d <= 9 ==> (#[trigger] names@[d - 1])@ == digit_word(d),
            0 <= pos <= chars.len(),
            result@ == normalized(s).take(pos as int),
        decreases chars.len() - pos,
    {
        let d = spelled_digit(chars.as_slice(), pos, &names);
        if d != 0 {
            push_char(&mut result, digit_to_char(d));
        } else {
            push_char(&mut result, chars[pos]);
        }
        pos += 1;
    }
    result
}

/// The first digit of `line`, if it has one.
pub open spec fn first_digit(line: Seq<char>) -> Option<nat>
    decreases line.len(),
{
    if line.len() == 0 {
        None
    } else if first_digit(line.drop_last()) is Some {
        first_digit(line.drop_last())
    } else if is_digit(line.last()) {
        Some(digit_value(line.last()))
    } else {
        None
    }
}

/// The last digit of `line`, if it has one.
pub open spec fn last_digit(line: Seq<char>) -> Option<nat>
    decreases line.len(),
{
    if line.len() == 0 {
        None
    } else if is_digit(line.last()) {
        Some(digit_value(line.last()))
    } else {
        last_digit(line.drop_last())
    }
}

/// The calibration value of `line`: the number of two digits that its first
/// and its last digit write, or zero if it has no digit.
pub open spec fn calibration_value(line: Seq<char>) -> nat {
    match (first_digit(line), last_digit(line)) {
        (Some(first), Some(last)) => first * 10 + last,
        _ => 0,
    }
}

/// The sum of the calibration values of the lines that begin at or after
/// `from`, where `from` is the start of a line. Only a line that ends with a
/// line feed counts.
pub open spec fn calibration_sum_from(s: Seq<char>, from: int) -> nat
    decreases s.len() - from,
    via calibration_sum_from_terminates
{
    if 0 <= from < s.len() && line_end(s, from) < s.len() {
        calibration_value(s.subrange(from, line_end(s, from))) + calibration_sum_from(
            s,
            line_end(s, from) + 1,
        )
    } else {
        0
    }
}

#[via_fn]
proof fn calibration_sum_from_terminates(s: Seq<char>, from: int) {
    if 0 <= from < s.len() {
        lemma_line_end(s, from);
    }
}

/// The sum of the calibration values of the lines of `s` that end with a
/// line feed.
pub open spec fn calibration_sum(s: Seq<char>) -> nat {
    calibration_sum_from(s, 0)
}

/// A line has a first digit exactly when it has a last one.
proof fn lemma_first_and_last(line: Seq<char>)
    ensures
        first_digit(line) is Some <==> last_digit(line) is Some,
        first_digit(line) matches Some(d) ==> d <= 9,
        last_digit(line) matches Some(d) ==> d <= 9,
    decreases line.len(),
{
    if line.len() > 0 {
        lemma_first_and_last(line.drop_last());
    }
}

/// The sum of the calibration values of the lines of `input`, unless it is
/// more than `u32::MAX`. The value of a line is ten times its first digit
/// plus its last digit; a line without a digit is worth nothing, and so is
/// a last line that no line feed ends.
pub fn sum_of_calibration_value(input: &str) -> (r: Option<u32>)
    ensures
        r == if calibration_sum(input@) <= u32::MAX {
            Some(calibration_sum(input@) as u32)
        } else {
            None
        },
{
    let chars = to_chars(input);
    let ghost s = chars@;
    let mut first_digit_seen: u8 = 0;
    let mut last_digit_seen: Option<u8> = None;
    let mut sum: u32 = 0;
    let mut start: usize = 0;
    let mut pos: usize = 0;
    while pos < chars.len()
        invariant
            s == chars@,
            s == input@,
            0 <= start <= pos <= chars.len(),
            line_end(s, start as int) == line_end(s, pos as int),
            calibration_sum(s) == sum + calibration_sum_from(s, start as int),
            match last_digit_seen {
                Some(last) => last_digit(s.subrange(start as int, pos as int)) == Some(last as nat)
                    && first_digit(s.subrange(start as int, pos as int)) == Some(
                    first_digit_seen as nat,
                ),
                None => last_digit(s.subrange(start as int, pos as int)) is None,
            },
        decreases chars.len() - pos,
    {
        let c = chars[pos];
        let ghost line = s.subrange(start as int, pos as int);
        proof {
            lemma_first_and_last(line);
            assert(s.subrange(start as int, pos + 1).drop_last() == line);
        }
        if c == '\n' {
            if let Some(last) = last_digit_seen {
                match sum.checked_add((first_digit_seen * 10 + last) as u32) {
                    Some(more) => {
                        sum = more;
                    },
                    None => {
                        return None;
                    },
                }
            }
            last_digit_seen = None;
            start = pos + 1;
        } else if is_decimal(&c) {
            let d = digit_of(c);
            if last_digit_seen.is_none() {
                first_digit_seen = d;
            }
            last_digit_seen = Some(d);
        }
        pos += 1;
    }
    Some(sum)
}

} // verus!
