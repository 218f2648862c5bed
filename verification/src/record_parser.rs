//! The grammar of game records, and a parser proved against it.
//!
//! ```text
//! records     := [ record ( "\n" record )* [ "\n" ] ]
//! record      := "Record " number ":" [ group ( ";" group )* ]
//! group       := count ( "," count )*
//! count       := number colour
//! colour      := "red" | "green" | "blue"
//! number      := digit ( digit | "_" )*
//! ```
//!
//! Spaces and tabs may stand on both sides of `:`, `;`, `,` and of a colour.
//! The functions of this module read a prefix of their input and say where
//! they stopped: a list ends before the first separator that no further item
//! follows. Only `parse` asks that the whole text be records.

use crate::records::{color_word, nothing_seen, views, Color, Game, GameView, Observation};
use crate::text::{
    decimal_value, digit_of, is_blank, is_decimal, is_digit, is_space, starts_with_word, to_chars,
    word_at,
};
use vstd::prelude::*;
use vstd::string::StrSliceExecFns;

verus! {

/// What a parser missed at the place where it gave up.
#[derive(Debug, Clone, Copy, PartialEq, Eq)]
pub enum ParseErrorKind {
    /// The word that opens a record.
    ExpectedKeyword,
    /// A number.
    ExpectedNumber,
    /// The colon behind the number of a record.
    ExpectedColon,
    /// The name of a colour.
    ExpectedColor,
    /// A number of at most `usize::MAX`.
    NumberTooLarge,
    /// The end of the line behind a record.
    ExpectedLineEnd,
}

/// A syntax error: what was missed, and at which character of the input.
#[derive(Debug, Clone, Copy, PartialEq, Eq)]
pub struct ParseError {
    pub position: usize,
    pub kind: ParseErrorKind,
}

/// The error of kind `kind` at `position`.
pub open spec fn failure(position: int, kind: ParseErrorKind) -> ParseError {
    ParseError { position: position as usize, kind }
}

/// The word that opens a record.
pub open spec fn keyword() -> Seq<char> {
    seq!['R', 'e', 'c', 'o', 'r', 'd', ' ']
}

/// The first position at or after `pos` that holds no blank.
pub open spec fn skip_blanks(s: Seq<char>, pos: int) -> int
    decreases s.len() - pos,
{
    if 0 <= pos < s.len() && is_blank(s[pos]) {
        skip_blanks(s, pos + 1)
    } else {
        pos
    }
}

/// The first position at or after `pos` that holds neither a digit nor an
/// underscore.
pub open spec fn number_end(s: Seq<char>, pos: int) -> int
    decreases s.len() - pos,
{
    if 0 <= pos < s.len() && (is_digit(s[pos]) || s[pos] == '_') {
        number_end(s, pos + 1)
    } else {
        pos
    }
}

/// Where the text goes on behind `word` with blanks on both sides, if that
/// stands at `pos`.
pub open spec fn padded_word_at(s: Seq<char>, pos: int, word: Seq<char>) -> Option<int> {
    let start = skip_blanks(s, pos);
    if word_at(s, start, word) {
        Some(skip_blanks(s, start + word.len()))
    } else {
        None
    }
}

/// The number at `pos` and where the text goes on behind it. A number begins
/// with a digit; its underscores count for nothing.
pub open spec fn decimal_at(s: Seq<char>, pos: int) -> Result<(usize, int), ParseError> {
    if 0 <= pos < s.len() && is_digit(s[pos]) {
        let end = number_end(s, pos);
        let value = decimal_value(s.subrange(pos, end));
        if value <= usize::MAX {
            Ok((value as usize, end))
        } else {
            Err(failure(pos, ParseErrorKind::NumberTooLarge))
        }
    } else {
        Err(failure(pos, ParseErrorKind::ExpectedNumber))
    }
}

/// The count of `color` at `pos`: a number, then the colour's name with
/// blanks on both sides.
pub open spec fn cube_at(s: Seq<char>, pos: int, color: Color) -> Result<
    ((usize, Color), int),
    ParseError,
> {
    match decimal_at(s, pos) {
        Ok((n, behind)) => match padded_word_at(s, behind, color_word(color)) {
            Some(end) => Ok(((n, color), end)),
            None => Err(failure(skip_blanks(s, behind), ParseErrorKind::ExpectedColor)),
        },
        Err(e) => Err(e),
    }
}

/// The count at `pos`, of whichever colour.
pub open spec fn count_at(s: Seq<char>, pos: int) -> Result<((usize, Color), int), ParseError> {
    if cube_at(s, pos, Color::Red) is Ok {
        cube_at(s, pos, Color::Red)
    } else if cube_at(s, pos, Color::Green) is Ok {
        cube_at(s, pos, Color::Green)
    } else {
        cube_at(s, pos, Color::Blue)
    }
}

/// The counts that follow at `pos`, each behind a comma, and where the text
/// goes on behind the last of them. A comma that no count follows is not
/// read.
pub open spec fn more_counts_at(s: Seq<char>, pos: int) -> (Seq<(usize, Color)>, int)
    decreases s.len() - pos,
    via more_counts_at_terminates
{
    match padded_word_at(s, pos, seq![',']) {
        Some(behind) => match count_at(s, behind) {
            Ok((count, next)) => {
                let rest = more_counts_at(s, next);
                (seq![count] + rest.0, rest.1)
            },
            Err(_) => (Seq::empty(), pos),
        },
        None => (Seq::empty(), pos),
    }
}

#[via_fn]
proof fn more_counts_at_terminates(s: Seq<char>, pos: int) {
    if let Some(behind) = padded_word_at(s, pos, seq![',']) {
        lemma_padded_word_at(s, pos, seq![',']);
        lemma_count_at(s, behind);
    }
}

/// The group that some counts make: each count sets its colour, a later one
/// in place of an earlier one.
pub open spec fn observe(counts: Seq<(usize, Color)>) -> Observation
    decreases counts.len(),
{
    if counts.len() == 0 {
        nothing_seen()
    } else {
        observe(counts.drop_last()).with_count(counts.last().0, counts.last().1)
    }
}

/// The counts of the group at `pos` and where the text goes on behind it.
pub open spec fn counts_at(s: Seq<char>, pos: int) -> Result<
    (Seq<(usize, Color)>, int),
    ParseError,
> {
    match count_at(s, pos) {
        Ok((count, next)) => {
            let rest = more_counts_at(s, next);
            Ok((seq![count] + rest.0, rest.1))
        },
        Err(e) => Err(e),
    }
}

/// The group at `pos`: one count or more, with commas between them.
pub open spec fn observation_at(s: Seq<char>, pos: int) -> Result<(Observation, int), ParseError> {
    match counts_at(s, pos) {
        Ok((counts, end)) => Ok((observe(counts), end)),
        Err(e) => Err(e),
    }
}

/// The groups that follow at `pos`, each behind a semicolon, and where the
/// text goes on behind the last of them. A semicolon that no group follows
/// is not read.
pub open spec fn more_observations_at(s: Seq<char>, pos: int) -> (Seq<Observation>, int)
    decreases s.len() - pos,
    via more_observations_at_terminates
{
    match padded_word_at(s, pos, seq![';']) {
        Some(behind) => match observation_at(s, behind) {
            Ok((observation, next)) => {
                let rest = more_observations_at(s, next);
                (seq![observation] + rest.0, rest.1)
            },
            Err(_) => (Seq::empty(), pos),
        },
        None => (Seq::empty(), pos),
    }
}

#[via_fn]
proof fn more_observations_at_terminates(s: Seq<char>, pos: int) {
    if let Some(behind) = padded_word_at(s, pos, seq![';']) {
        lemma_padded_word_at(s, pos, seq![';']);
        lemma_observation_at(s, behind);
    }
}

/// The groups at `pos`, none or more with semicolons between them, and where
/// the text goes on behind them.
pub open spec fn observations_at(s: Seq<char>, pos: int) -> (Seq<Observation>, int) {
    match observation_at(s, pos) {
        Ok((observation, next)) => {
            let rest = more_observations_at(s, next);
            (seq![observation] + rest.0, rest.1)
        },
        Err(_) => (Seq::empty(), pos),
    }
}

/// The record at `pos` and where the text goes on behind it.
pub open spec fn game_at(s: Seq<char>, pos: int) -> Result<(GameView, int), ParseError> {
    if !word_at(s, pos, keyword()) {
        Err(failure(pos, ParseErrorKind::ExpectedKeyword))
    } else {
        match decimal_at(s, pos + keyword().len()) {
            Ok((id, behind)) => match padded_word_at(s, behind, seq![':']) {
                Some(groups) => {
                    let (observations, end) = observations_at(s, groups);
                    Ok((GameView { id, observations }, end))
                },
                None => Err(failure(skip_blanks(s, behind), ParseErrorKind::ExpectedColon)),
            },
            Err(e) => Err(e),
        }
    }
}

/// The records from `pos` to the end of the text, one to a line. The last
/// line may end with a line feed or without.
pub open spec fn games_at(s: Seq<char>, pos: int) -> Result<Seq<GameView>, ParseError>
    decreases s.len() - pos,
    via games_at_terminates
{
    if pos >= s.len() {
        Ok(Seq::empty())
    } else {
        match game_at(s, pos) {
            Ok((game, end)) => if end >= s.len() {
                Ok(seq![game])
            } else if s[end] == '\n' {
                match games_at(s, end + 1) {
                    Ok(rest) => Ok(seq![game] + rest),
                    Err(e) => Err(e),
                }
            } else {
                Err(failure(end, ParseErrorKind::ExpectedLineEnd))
            },
            Err(e) => Err(e),
        }
    }
}

#[via_fn]
proof fn games_at_terminates(s: Seq<char>, pos: int) {
    lemma_game_at(s, pos);
}

/// `skip_blanks` stays inside the text, passes blanks only and stops at none.
pub proof fn lemma_skip_blanks(s: Seq<char>, pos: int)
    requires
        0 <= pos <= s.len(),
    ensures
        pos <= skip_blanks(s, pos) <= s.len(),
        forall|i: int| pos <= i < skip_blanks(s, pos) ==> is_blank(#[trigger] s[i]),
        skip_blanks(s, pos) < s.len() ==> !is_blank(s[skip_blanks(s, pos)]),
    decreases s.len() - pos,
{
    if pos < s.len() && is_blank(s[pos]) {
        lemma_skip_blanks(s, pos + 1);
    }
}

/// `number_end` stays inside the text.
pub proof fn lemma_number_end(s: Seq<char>, pos: int)
    requires
        0 <= pos <= s.len(),
    ensures
        pos <= number_end(s, pos) <= s.len(),
        pos < s.len() && is_digit(s[pos]) ==> pos < number_end(s, pos),
    decreases s.len() - pos,
{
    if pos < s.len() && (is_digit(s[pos]) || s[pos] == '_') {
        lemma_number_end(s, pos + 1);
    }
}

/// A word with its blanks is read inside the text, and a word that is not
/// empty takes the text further.
pub proof fn lemma_padded_word_at(s: Seq<char>, pos: int, word: Seq<char>)
    requires
        0 <= pos <= s.len(),
    ensures
        pos <= skip_blanks(s, pos) <= s.len(),
        padded_word_at(s, pos, word) matches Some(end) ==> pos + word.len() <= end <= s.len(),
{
    lemma_skip_blanks(s, pos);
    let start = skip_blanks(s, pos);
    if word_at(s, start, word) {
        lemma_skip_blanks(s, start + word.len());
    }
}

/// A number is read inside the text and takes the text further.
pub proof fn lemma_decimal_at(s: Seq<char>, pos: int)
    ensures
        decimal_at(s, pos) matches Ok((_, end)) ==> 0 <= pos < end <= s.len(),
        decimal_at(s, pos) matches Err(e) ==> e.position == pos as usize,
{
    if 0 <= pos < s.len() {
        lemma_number_end(s, pos);
    }
}

/// A count is read inside the text and takes the text further.
pub proof fn lemma_count_at(s: Seq<char>, pos: int)
    ensures
        count_at(s, pos) matches Ok((_, end)) ==> 0 <= pos < end <= s.len(),
        forall|color: Color|
            #[trigger] cube_at(s, pos, color) matches Ok((_, end)) ==> 0 <= pos < end <= s.len(),
{
    lemma_decimal_at(s, pos);
    if let Ok((_, behind)) = decimal_at(s, pos) {
        lemma_padded_word_at(s, behind, color_word(Color::Red));
        lemma_padded_word_at(s, behind, color_word(Color::Green));
        lemma_padded_word_at(s, behind, color_word(Color::Blue));
    }
}

/// Further counts are read inside the text.
pub proof fn lemma_more_counts_at(s: Seq<char>, pos: int)
    requires
        0 <= pos <= s.len(),
    ensures
        pos <= more_counts_at(s, pos).1 <= s.len(),
    decreases s.len() - pos,
{
    lemma_padded_word_at(s, pos, seq![',']);
    if let Some(behind) = padded_word_at(s, pos, seq![',']) {
        lemma_count_at(s, behind);
        if let Ok((_, next)) = count_at(s, behind) {
            lemma_more_counts_at(s, next);
        }
    }
}

/// A group is read inside the text and takes the text further.
pub proof fn lemma_observation_at(s: Seq<char>, pos: int)
    ensures
        observation_at(s, pos) matches Ok((_, end)) ==> 0 <= pos < end <= s.len(),
{
    lemma_count_at(s, pos);
    if let Ok((_, next)) = count_at(s, pos) {
        lemma_more_counts_at(s, next);
    }
}

/// Further groups are read inside the text.
pub proof fn lemma_more_observations_at(s: Seq<char>, pos: int)
    requires
        0 <= pos <= s.len(),
    ensures
        pos <= more_observations_at(s, pos).1 <= s.len(),
    decreases s.len() - pos,
{
    lemma_padded_word_at(s, pos, seq![';']);
    if let Some(behind) = padded_word_at(s, pos, seq![';']) {
        lemma_observation_at(s, behind);
        if let Ok((_, next)) = observation_at(s, behind) {
            lemma_more_observations_at(s, next);
        }
    }
}

/// A record is read inside the text and takes the text further.
pub proof fn lemma_game_at(s: Seq<char>, pos: int)
    ensures
        game_at(s, pos) matches Ok((_, end)) ==> 0 <= pos < end <= s.len(),
{
    if word_at(s, pos, keyword()) {
        lemma_decimal_at(s, pos + keyword().len());
        if let Ok((_, behind)) = decimal_at(s, pos + keyword().len()) {
            lemma_padded_word_at(s, behind, seq![':']);
            if let Some(groups) = padded_word_at(s, behind, seq![':']) {
                lemma_observation_at(s, groups);
                if let Ok((_, next)) = observation_at(s, groups) {
                    lemma_more_observations_at(s, next);
                }
            }
        }
    }
}

/// Whether a parser's result is the one that the grammar gives.
spec fn agrees<T>(
    r: Result<(T, usize), ParseError>,
    expected: Result<(T, int), ParseError>,
) -> bool {
    match expected {
        Ok((value, end)) => r matches Ok((v, e)) && v == value && e == end,
        Err(error) => r matches Err(e) && e == error,
    }
}

/// The records `done` before what follows, where that was read.
spec fn before(done: Seq<GameView>, rest: Result<Seq<GameView>, ParseError>) -> Result<
    Seq<GameView>,
    ParseError,
> {
    match rest {
        Ok(games) => Ok(done + games),
        Err(e) => Err(e),
    }
}

/// The first position at or after `pos` that holds no blank.
fn skip_spaces(chars: &[char], pos: usize) -> (r: usize)
    requires
        pos <= chars.len(),
    ensures
        r == skip_blanks(chars@, pos as int),
        pos <= r <= chars.len(),
{
    let mut r = pos;
    while r < chars.len() && is_space(chars[r])
        invariant
            pos <= r <= chars.len(),
            skip_blanks(chars@, pos as int) == skip_blanks(chars@, r as int),
        decreases chars.len() - r,
    {
        r += 1;
    }
    r
}

/// Where the text goes on behind `word` with blanks on both sides, if that
/// stands at `pos`.
fn padded_word(chars: &[char], pos: usize, word: &[char]) -> (r: Option<usize>)
    requires
        pos <= chars.len(),
    ensures
        match padded_word_at(chars@, pos as int, word@) {
            Some(end) => r == Some(end as usize) && pos <= end <= chars.len(),
            None => r is None,
        },
{
    let start = skip_spaces(chars, pos);
    if starts_with_word(chars, start, word) {
        Some(skip_spaces(chars, start + word.len()))
    } else {
        None
    }
}

/// Where the text goes on behind `mark` with blanks on both sides, if that
/// stands at `pos`.
fn padded_mark(chars: &[char], pos: usize, mark: char) -> (r: Option<usize>)
    requires
        pos <= chars.len(),
    ensures
        match padded_word_at(chars@, pos as int, seq![mark]) {
            Some(end) => r == Some(end as usize) && pos < end <= chars.len(),
            None => r is None,
        },
{
    let start = skip_spaces(chars, pos);
    if start < chars.len() && chars[start] == mark {
        proof {
            assert(chars@.subrange(start as int, start + 1) =~= seq![mark]);
        }
        Some(skip_spaces(chars, start + 1))
    } else {
        proof {
            if start < chars.len() {
                assert(chars@.subrange(start as int, start + 1)[0] != seq![mark][0]);
            }
        }
        None
    }
}

/// The number at `pos` and where the text goes on behind it.
fn decimal(chars: &[char], pos: usize) -> (r: Result<(usize, usize), ParseError>)
    requires
        pos <= chars.len(),
    ensures
        agrees(r, decimal_at(chars@, pos as int)),
{
    if pos >= chars.len() || !is_decimal(&chars[pos]) {
        return Err(ParseError { position: pos, kind: ParseErrorKind::ExpectedNumber });
    }
    let ghost s = chars@;
    let mut end = pos;
    let mut value: Option<usize> = Some(0);
    while end < chars.len() && (is_decimal(&chars[end]) || chars[end] == '_')
        invariant
            s == chars@,
            pos <= end <= chars.len(),
            number_end(s, pos as int) == number_end(s, end as int),
            value == if decimal_value(s.subrange(pos as int, end as int)) <= usize::MAX {
                Some(decimal_value(s.subrange(pos as int, end as int)) as usize)
            } else {
                None
            },
        decreases chars.len() - end,
    {
        let c = chars[end];
        proof {
            let longer = s.subrange(pos as int, end + 1);
            assert(longer.drop_last() == s.subrange(pos as int, end as int));
        }
        if is_decimal(&c) {
            value =
            match value {
                Some(v) => match v.checked_mul(10) {
                    Some(tens) => tens.checked_add(digit_of(c) as usize),
                    None => None,
                },
                None => None,
            };
        }
        end += 1;
    }
    match value {
        Some(v) => Ok((v, end)),
        None => Err(ParseError { position: pos, kind: ParseErrorKind::NumberTooLarge }),
    }
}

/// The count of `color` at `pos` and where the text goes on behind it.
fn cube(chars: &[char], pos: usize, color: Color) -> (r: Result<
    ((usize, Color), usize),
    ParseError,
>)
    requires
        pos <= chars.len(),
    ensures
        agrees(r, cube_at(chars@, pos as int, color)),
{
    proof {
        lemma_decimal_at(chars@, pos as int);
    }
    let (n, behind) = match decimal(chars, pos) {
        Ok(r) => r,
        Err(e) => {
            return Err(e);
        },
    };
    let word = to_chars(color.name());
    match padded_word(chars, behind, word.as_slice()) {
        Some(end) => Ok(((n, color), end)),
        None => Err(
            ParseError {
                position: skip_spaces(chars, behind),
                kind: ParseErrorKind::ExpectedColor,
            },
        ),
    }
}

/// The count at `pos`, of whichever colour, and where the text goes on
/// behind it.
fn count(chars: &[char], pos: usize) -> (r: Result<((usize, Color), usize), ParseError>)
    requires
        pos <= chars.len(),
    ensures
        agrees(r, count_at(chars@, pos as int)),
{
    match cube(chars, pos, Color::Red) {
        Ok(r) => Ok(r),
        Err(_) => match cube(chars, pos, Color::Green) {
            Ok(r) => Ok(r),
            Err(_) => cube(chars, pos, Color::Blue),
        },
    }
}

/// The group at `pos` and where the text goes on behind it.
fn observation(chars: &[char], pos: usize) -> (r: Result<(Observation, usize), ParseError>)
    requires
        pos <= chars.len(),
    ensures
        agrees(r, observation_at(chars@, pos as int)),
{
    let ghost s = chars@;
    proof {
        lemma_count_at(s, pos as int);
    }
    let (first, next) = match count(chars, pos) {
        Ok(r) => r,
        Err(e) => {
            return Err(e);
        },
    };
    let ghost after_first = next;
    let ghost counts = seq![first];
    let mut seen = Observation::new().set_count(first.0, first.1);
    let mut end = next;
    let mut more = true;
    proof {
        assert(counts.drop_last() =~= Seq::<(usize, Color)>::empty());
        assert(observe(Seq::<(usize, Color)>::empty()) == nothing_seen());
    }
    while more
        invariant
            s == chars@,
            end <= chars.len(),
            seen == observe(counts),
            counts + more_counts_at(s, end as int).0 == seq![first] + more_counts_at(
                s,
                after_first as int,
            ).0,
            more_counts_at(s, end as int).1 == more_counts_at(s, after_first as int).1,
            !more ==> more_counts_at(s, end as int) == (Seq::<(usize, Color)>::empty(), end as int),
        decreases chars.len() - end + if more { 1int } else { 0int },
    {
        match padded_mark(chars, end, ',') {
            Some(behind) => {
                proof {
                    lemma_count_at(s, behind as int);
                }
                match count(chars, behind) {
                    Ok((c, next)) => {
                        proof {
                            assert(counts.push(c).drop_last() =~= counts);
                        }
                        seen = seen.set_count(c.0, c.1);
                        end = next;
                        proof {
                            counts = counts.push(c);
                        }
                    },
                    Err(_) => {
                        more = false;
                    },
                }
            },
            None => {
                more = false;
            },
        }
    }
    Ok((seen, end))
}

/// The groups at `pos` and where the text goes on behind them.
fn observations(chars: &[char], pos: usize) -> (r: (Vec<Observation>, usize))
    requires
        pos <= chars.len(),
    ensures
        r.0@ == observations_at(chars@, pos as int).0,
        r.1 == observations_at(chars@, pos as int).1,
        pos <= r.1 <= chars.len(),
{
    let ghost s = chars@;
    let mut found: Vec<Observation> = Vec::new();
    proof {
        lemma_observation_at(s, pos as int);
    }
    let (first, next) = match observation(chars, pos) {
        Ok(r) => r,
        Err(_) => {
            return (found, pos);
        },
    };
    let ghost after_first = next;
    found.push(first);
    let mut end = next;
    let mut more = true;
    while more
        invariant
            s == chars@,
            pos <= end <= chars.len(),
            found@ + more_observations_at(s, end as int).0 == seq![first] + more_observations_at(
                s,
                after_first as int,
            ).0,
            more_observations_at(s, end as int).1 == more_observations_at(s, after_first as int).1,
            !more ==> more_observations_at(s, end as int) == (
                Seq::<Observation>::empty(),
                end as int,
            ),
        decreases chars.len() - end + if more { 1int } else { 0int },
    {
        match padded_mark(chars, end, ';') {
            Some(behind) => {
                proof {
                    lemma_observation_at(s, behind as int);
                }
                match observation(chars, behind) {
                    Ok((o, next)) => {
                        found.push(o);
                        end = next;
                    },
                    Err(_) => {
                        more = false;
                    },
                }
            },
            None => {
                more = false;
            },
        }
    }
    (found, end)
}

/// The record at `pos` and where the text goes on behind it.
fn game(chars: &[char], pos: usize) -> (r: Result<(Game, usize), ParseError>)
    requires
        pos <= chars.len(),
    ensures
        match game_at(chars@, pos as int) {
            Ok((game, end)) => r matches Ok((g, e)) && g@ == game && e == end
                && pos < end <= chars.len(),
            Err(error) => r matches Err(e) && e == error,
        },
{
    let ghost s = chars@;
    let word = to_chars("Record ");
    proof {
        reveal_strlit("Record ");
        assert(word@ =~= keyword());
    }
    if !starts_with_word(chars, pos, word.as_slice()) {
        return Err(ParseError { position: pos, kind: ParseErrorKind::ExpectedKeyword });
    }
    proof {
        lemma_decimal_at(s, pos + 7);
    }
    let (id, behind) = match decimal(chars, pos + 7) {
        Ok(r) => r,
        Err(e) => {
            return Err(e);
        },
    };
    let groups = match padded_mark(chars, behind, ':') {
        Some(groups) => groups,
        None => {
            return Err(
                ParseError {
                    position: skip_spaces(chars, behind),
                    kind: ParseErrorKind::ExpectedColon,
                },
            );
        },
    };
    let (observations, end) = observations(chars, groups);
    Ok((Game { id, observations }, end))
}

/// The records of the text, one to a line.
fn games(chars: &[char]) -> (r: Result<Vec<Game>, ParseError>)
    ensures
        match games_at(chars@, 0) {
            Ok(games) => r matches Ok(v) && views(v@) == games,
            Err(error) => r matches Err(e) && e == error,
        },
{
    let ghost s = chars@;
    let mut found: Vec<Game> = Vec::new();
    let mut pos: usize = 0;
    while pos < chars.len()
        invariant
            s == chars@,
            pos <= chars.len(),
            games_at(s, 0) == before(views(found@), games_at(s, pos as int)),
        decreases chars.len() - pos,
    {
        let ghost done = views(found@);
        let (game, end) = match game(chars, pos) {
            Ok(r) => r,
            Err(e) => {
                return Err(e);
            },
        };
        proof {
            assert(views(found@.push(game)) =~= done.push(game@));
            if end < chars.len() && s[end as int] == '\n' {
                if let Ok(rest) = games_at(s, end + 1) {
                    assert(done.push(game@) + rest =~= done + (seq![game@] + rest));
                }
            } else if end >= chars.len() {
                assert(done.push(game@) + Seq::<GameView>::empty() =~= done + seq![game@]);
            }
        }
        found.push(game);
        if end >= chars.len() {
            pos = chars.len();
        } else if chars[end] == '\n' {
            pos = end + 1;
        } else {
            return Err(ParseError { position: end, kind: ParseErrorKind::ExpectedLineEnd });
        }
    }
    Ok(found)
}

/// Reads the number at the start of `input`. Gives the rest of the input and
/// the number, or the error: no digit at the start, or a number above
/// `usize::MAX`.
pub fn parse_decimal(input: &str) -> (r: Result<(&str, usize), ParseError>)
    ensures
        match decimal_at(input@, 0) {
            Ok((n, end)) => r matches Ok((rest, m)) && m == n && rest@ == input@.skip(end),
            Err(error) => r matches Err(e) && e == error,
        },
{
    let chars = to_chars(input);
    proof {
        lemma_decimal_at(chars@, 0);
    }
    match decimal(chars.as_slice(), 0) {
        Ok((n, end)) => Ok((input.substring_char(end, chars.len()), n)),
        Err(e) => Err(e),
    }
}

/// Reads the count of `color` at the start of `input`: a number and the
/// colour's name. Gives the rest of the input and the count, or the error.
pub fn parse_cube(input: &str, color: Color) -> (r: Result<(&str, (usize, Color)), ParseError>)
    ensures
        match cube_at(input@, 0, color) {
            Ok((count, end)) => r matches Ok((rest, c)) && c == count && rest@ == input@.skip(end),
            Err(error) => r matches Err(e) && e == error,
        },
{
    let chars = to_chars(input);
    proof {
        lemma_count_at(chars@, 0);
    }
    match cube(chars.as_slice(), 0, color) {
        Ok((count, end)) => Ok((input.substring_char(end, chars.len()), count)),
        Err(e) => Err(e),
    }
}

/// Reads the group at the start of `input`: one count or more with commas
/// between them. Gives the rest of the input and the group, or the error of
/// the first count.
pub fn parse_observation(input: &str) -> (r: Result<(&str, Observation), ParseError>)
    ensures
        match observation_at(input@, 0) {
            Ok((seen, end)) => r matches Ok((rest, o)) && o == seen && rest@ == input@.skip(end),
            Err(error) => r matches Err(e) && e == error,
        },
{
    let chars = to_chars(input);
    proof {
        lemma_observation_at(chars@, 0);
    }
    match observation(chars.as_slice(), 0) {
        Ok((seen, end)) => Ok((input.substring_char(end, chars.len()), seen)),
        Err(e) => Err(e),
    }
}

/// Reads the record at the start of `input`. Gives the rest of the input and
/// the record, or the error: the opening word, the number or the colon is
/// missing, or the number is above `usize::MAX`.
pub fn parse_game(input: &str) -> (r: Result<(&str, Game), ParseError>)
    ensures
        match game_at(input@, 0) {
            Ok((game, end)) => r matches Ok((rest, g)) && g@ == game && rest@ == input@.skip(end),
            Err(error) => r matches Err(e) && e == error,
        },
{
    let chars = to_chars(input);
    match game(chars.as_slice(), 0) {
        Ok((found, end)) => Ok((input.substring_char(end, chars.len()), found)),
        Err(e) => Err(e),
    }
}

/// Reads a text of records, one to a line. Gives the records in the order
/// of the text, or the first error: that of the record which a line does not
/// hold, or the place behind a record where the line does not end.
pub fn parse(input: &str) -> (r: Result<Vec<Game>, ParseError>)
    ensures
        match games_at(input@, 0) {
            Ok(games) => r matches Ok(v) && views(v@) == games,
            Err(error) => r matches Err(e) && e == error,
        },
{
    let chars = to_chars(input);
    games(chars.as_slice())
}

} // verus!
