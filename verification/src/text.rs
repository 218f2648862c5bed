//! Characters, words, lines and decimal numbers: the vocabulary shared by all
//! the solvers.

use vstd::prelude::*;

verus! {

/// Whether `c` is one of the ten ASCII digits.
pub open spec fn is_digit(c: char) -> bool {
    '0' <= c && c <= '9'
}

/// The number that an ASCII digit stands for.
pub open spec fn digit_value(c: char) -> nat
    recommends
        is_digit(c),
{
    (c as u32 - '0' as u32) as nat
}

/// The character that writes the digit `d`, for `d` from zero to nine.
pub open spec fn digit_char(d: int) -> char
    recommends
        0 <= d <= 9,
{
    ('0' as u32 + d) as char
}

/// Whether `c` is ASCII punctuation: a character from `!` to `/`, from `:`
/// to `@`, from `[` to the backtick or from `{` to `~`.
pub open spec fn is_punctuation(c: char) -> bool {
    ||| '!' <= c && c <= '/'
    ||| ':' <= c && c <= '@'
    ||| '[' <= c && c <= '`'
    ||| '{' <= c && c <= '~'
}

/// Whether `c` is a blank: a space or a tab.
pub open spec fn is_blank(c: char) -> bool {
    c == ' ' || c == '\t'
}

/// Whether `word` stands at `pos`.
pub open spec fn word_at(s: Seq<char>, pos: int, word: Seq<char>) -> bool {
    0 <= pos && pos + word.len() <= s.len() && s.subrange(pos, pos + word.len()) == word
}

/// The position of the first `c` in `s` at or after `from`, or the length of
/// `s` if there is none.
pub open spec fn next_of(s: Seq<char>, c: char, from: int) -> int
    decreases s.len() - from,
{
    if 0 <= from < s.len() && s[from] != c {
        next_of(s, c, from + 1)
    } else {
        from
    }
}

/// The position of the first line feed of `s` at or after `from`, or the
/// length of `s` if there is none.
pub open spec fn line_end(s: Seq<char>, from: int) -> int {
    next_of(s, '\n', from)
}

/// The number written by the digits of `s`, most significant first. Characters
/// that are not digits are passed over, so `1_0` is worth ten.
pub open spec fn decimal_value(s: Seq<char>) -> nat
    decreases s.len(),
{
    if s.len() == 0 {
        0
    } else if is_digit(s.last()) {
        decimal_value(s.drop_last()) * 10 + digit_value(s.last())
    } else {
        decimal_value(s.drop_last())
    }
}

/// The sum of `f(0)`, `f(1)`, and so on up to `f(n - 1)`.
pub open spec fn sum_to(f: spec_fn(int) -> nat, n: int) -> nat
    decreases n,
{
    if n <= 0 {
        0
    } else {
        sum_to(f, n - 1) + f(n - 1)
    }
}

/// A number as a `u32`, if it is none too large.
pub open spec fn checked_u32(n: nat) -> Option<u32> {
    if n <= u32::MAX {
        Some(n as u32)
    } else {
        None
    }
}

/// A number as a `usize`, if it is none too large.
pub open spec fn checked_usize(n: nat) -> Option<usize> {
    if n <= usize::MAX {
        Some(n as usize)
    } else {
        None
    }
}

/// `next_of` stays inside the text, passes no `c` and stops at one.
pub proof fn lemma_next_of(s: Seq<char>, c: char, from: int)
    requires
        0 <= from <= s.len(),
    ensures
        from <= next_of(s, c, from) <= s.len(),
        forall|i: int| from <= i < next_of(s, c, from) ==> s[i] != c,
        next_of(s, c, from) < s.len() ==> s[next_of(s, c, from)] == c,
    decreases s.len() - from,
{
    if from < s.len() && s[from] != c {
        lemma_next_of(s, c, from + 1);
    }
}

/// `line_end` stays inside the text, passes no line feed and stops at one.
pub proof fn lemma_line_end(s: Seq<char>, from: int)
    requires
        0 <= from <= s.len(),
    ensures
        from <= line_end(s, from) <= s.len(),
        forall|i: int| from <= i < line_end(s, from) ==> s[i] != '\n',
        line_end(s, from) < s.len() ==> s[line_end(s, from)] == '\n',
{
    lemma_next_of(s, '\n', from);
}

/// A longer prefix of a text is worth at least as much as a shorter one.
pub proof fn lemma_decimal_value_grows(s: Seq<char>, i: int, j: int)
    requires
        0 <= i <= j <= s.len(),
    ensures
        decimal_value(s.take(i)) <= decimal_value(s.take(j)),
    decreases j - i,
{
    if i < j {
        lemma_decimal_value_grows(s, i, j - 1);
        assert(s.take(j).drop_last() == s.take(j - 1));
    }
}

/// A sum of more terms is no smaller.
pub proof fn lemma_sum_to_grows(f: spec_fn(int) -> nat, i: int, j: int)
    requires
        i <= j,
    ensures
        sum_to(f, i) <= sum_to(f, j),
    decreases j - i,
{
    if i < j {
        lemma_sum_to_grows(f, i, j - 1);
    }
}

/// Whether `c` is an ASCII digit.
pub fn is_decimal(c: &char) -> (r: bool)
    ensures
        r == is_digit(*c),
{
    *c >= '0' && *c <= '9'
}

/// The number that the ASCII digit `c` stands for.
pub fn digit_of(c: char) -> (r: u8)
    requires
        is_digit(c),
    ensures
        r == digit_value(c),
        r <= 9,
{
    (c as u32 - '0' as u32) as u8
}

/// The character that writes the digit `d`.
pub fn digit_to_char(d: u8) -> (r: char)
    requires
        d <= 9,
    ensures
        r == digit_char(d as int),
        is_digit(r),
        digit_value(r) == d,
{
    ('0' as u8 + d) as char
}

/// Whether `c` is ASCII punctuation.
pub fn is_ascii_punctuation(c: char) -> (r: bool)
    ensures
        r == is_punctuation(c),
{
    (c >= '!' && c <= '/') || (c >= ':' && c <= '@') || (c >= '[' && c <= '`') || (c >= '{'
        && c <= '~')
}

/// Whether `c` is a space or a tab.
pub fn is_space(c: char) -> (r: bool)
    ensures
        r == is_blank(c),
{
    c == ' ' || c == '\t'
}

/// The characters of `s`, in order.
pub fn to_chars(s: &str) -> (r: Vec<char>)
    ensures
        r@ == s@,
{
    let mut r: Vec<char> = Vec::new();
    for c in it: s.chars()
        invariant
            r@ == it.seq().take(it.index() as int),
            it.seq() == s@,
    {
        r.push(c);
    }
    r
}

/// The position of the first `c` at or after `from`, or the length of the
/// text if there is none.
pub fn find(chars: &[char], c: char, from: usize) -> (r: usize)
    ensures
        r == next_of(chars@, c, from as int),
        from <= r,
        from <= chars.len() ==> r <= chars.len(),
{
    let mut r = from;
    while r < chars.len() && chars[r] != c
        invariant
            from <= r,
            from <= chars.len() ==> r <= chars.len(),
            next_of(chars@, c, from as int) == next_of(chars@, c, r as int),
        decreases chars.len() - r,
    {
        r += 1;
    }
    r
}

/// Whether `word` stands at `pos`.
pub fn starts_with_word(chars: &[char], pos: usize, word: &[char]) -> (r: bool)
    ensures
        r == word_at(chars@, pos as int, word@),
{
    if pos > chars.len() || word.len() > chars.len() - pos {
        return false;
    }
    let mut i: usize = 0;
    while i < word.len()
        invariant
            pos + word.len() <= chars.len(),
            0 <= i <= word.len(),
            forall|k: int| 0 <= k < i ==> chars@[pos + k] == word@[k],
        decreases word.len() - i,
    {
        if chars[pos + i] != word[i] {
            return false;
        }
        i += 1;
    }
    assert(chars@.subrange(pos as int, pos + word.len()) =~= word@);
    true
}

} // verus!
