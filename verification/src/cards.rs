//! Scratch cards: how many of a card's numbers win, what the card is worth,
//! and how many cards the winnings add up to.
//!
//! A card is a line with a colon and, behind it, two lists of numbers with a
//! bar between them: the winning numbers and the numbers held. The numbers
//! of a list stand between single spaces; what is no number there is passed
//! over.

use crate::text::{
    checked_usize, decimal_value, digit_of, find, is_decimal, is_digit,
    lemma_decimal_value_grows, lemma_line_end, lemma_next_of, lemma_sum_to_grows, line_end,
    next_of, sum_to, to_chars,
};
use std::collections::HashSet;
use vstd::arithmetic::power2::{lemma_pow2_strictly_increases, lemma_pow2_unfold, pow2};
use vstd::prelude::*;

verus! {

/// The number that `digits` write, if they are digits, one at least, and
/// worth at most `u32::MAX`.
pub open spec fn digits_value(digits: Seq<char>) -> Option<u32> {
    if digits.len() > 0 && (forall|i: int| 0 <= i < digits.len() ==> is_digit(#[trigger] digits[i]))
        && decimal_value(digits) <= u32::MAX {
        Some(decimal_value(digits) as u32)
    } else {
        None
    }
}

/// The number that the token `t` writes: digits, with or without a plus sign
/// before them.
pub open spec fn token_value(t: Seq<char>) -> Option<u32> {
    if t.len() > 0 && t[0] == '+' {
        digits_value(t.skip(1))
    } else {
        digits_value(t)
    }
}

/// The numbers of the list `s` from `from` on, where `from` is the start of
/// a token. Tokens end at a space.
pub open spec fn numbers_from(s: Seq<char>, from: int) -> Seq<u32>
    decreases s.len() - from,
    via numbers_from_terminates
{
    if 0 <= from <= s.len() {
        let end = next_of(s, ' ', from);
        let rest = if end < s.len() {
            numbers_from(s, end + 1)
        } else {
            Seq::empty()
        };
        match token_value(s.subrange(from, end)) {
            Some(n) => seq![n] + rest,
            None => rest,
        }
    } else {
        Seq::empty()
    }
}

#[via_fn]
proof fn numbers_from_terminates(s: Seq<char>, from: int) {
    if 0 <= from <= s.len() {
        lemma_next_of(s, ' ', from);
    }
}

/// The numbers of the list `s`.
pub open spec fn numbers_of(s: Seq<char>) -> Seq<u32> {
    numbers_from(s, 0)
}

/// The two lists of the card `line`: what stands between the first colon and
/// the first bar behind it, and what follows that bar. The second list ends
/// at the next bar, at the next colon or with the line. A line without a
/// colon, or without a bar between its first colon and its second, is no
/// card.
pub open spec fn card_lists(line: Seq<char>) -> Option<(Seq<char>, Seq<char>)> {
    let colon = next_of(line, ':', 0);
    if colon >= line.len() {
        None
    } else {
        let body_end = next_of(line, ':', colon + 1);
        let bar = next_of(line, '|', colon + 1);
        if bar >= body_end {
            None
        } else {
            let second = next_of(line, '|', bar + 1);
            let held_end = if second < body_end {
                second
            } else {
                body_end
            };
            Some((line.subrange(colon + 1, bar), line.subrange(bar + 1, held_end)))
        }
    }
}

/// How many different numbers stand in both lists.
pub open spec fn matching(winning: Seq<u32>, held: Seq<u32>) -> nat {
    winning.to_set().intersect(held.to_set()).len()
}

/// How many of the winning numbers of the card `line` are held; nothing if
/// the line is no card.
pub open spec fn card_matches(line: Seq<char>) -> Option<nat> {
    match card_lists(line) {
        Some((winning, held)) => Some(matching(numbers_of(winning), numbers_of(held))),
        None => None,
    }
}

/// The line of `s` from `from` to before `end`, without the carriage return
/// that may stand before the line feed that ends it.
pub open spec fn line_between(s: Seq<char>, from: int, end: int) -> Seq<char> {
    if end < s.len() && from < end && s[end - 1] == '\r' {
        s.subrange(from, end - 1)
    } else {
        s.subrange(from, end)
    }
}

/// The matches of the cards of `s` from `from` on, where `from` is the start
/// of a line. Lines that are no cards are passed over.
pub open spec fn matches_from(s: Seq<char>, from: int) -> Seq<nat>
    decreases s.len() - from,
    via matches_from_terminates
{
    if 0 <= from < s.len() {
        let end = line_end(s, from);
        let rest = if end < s.len() {
            matches_from(s, end + 1)
        } else {
            Seq::empty()
        };
        match card_matches(line_between(s, from, end)) {
            Some(n) => seq![n] + rest,
            None => rest,
        }
    } else {
        Seq::empty()
    }
}

#[via_fn]
proof fn matches_from_terminates(s: Seq<char>, from: int) {
    if 0 <= from < s.len() {
        lemma_line_end(s, from);
    }
}

/// What a card with `matches` matches is worth: one point for the first
/// match, and twice as much with each further one.
pub open spec fn points(matches: nat) -> nat {
    if matches == 0 {
        0
    } else {
        pow2((matches - 1) as nat)
    }
}

/// What the cards are worth, card by card.
pub open spec fn points_by_card(matches: Seq<usize>) -> spec_fn(int) -> nat {
    |i: int| points(matches[i] as nat)
}

/// The points of all the cards.
pub open spec fn all_points(matches: Seq<usize>) -> nat {
    sum_to(points_by_card(matches), matches.len() as int)
}

/// How many of card `j` are held once the cards before card `upto` have
/// paid out: one to begin with, and for each card `i` before `upto` and
/// before `j` whose matches reach as far as `j`, one copy for each of card
/// `i` that is held in the end.
pub open spec fn held_upto(matches: Seq<usize>, j: int, upto: int) -> nat
    decreases j, upto,
{
    if upto <= 0 {
        1
    } else if upto - 1 < j && j <= upto - 1 + matches[upto - 1] {
        held_upto(matches, j, upto - 1) + held_upto(matches, upto - 1, upto - 1)
    } else {
        held_upto(matches, j, upto - 1)
    }
}

/// How many of each card are held in the end, card by card.
pub open spec fn held_by_card(matches: Seq<usize>) -> spec_fn(int) -> nat {
    |j: int| held_upto(matches, j, j)
}

/// How many cards are held in the end.
pub open spec fn all_cards(matches: Seq<usize>) -> nat {
    sum_to(held_by_card(matches), matches.len() as int)
}

/// The cards from `j` on pay nothing to card `j`, and a card never loses
/// copies.
proof fn lemma_held_upto(matches: Seq<usize>, j: int, upto: int)
    requires
        0 <= upto,
    ensures
        upto >= j ==> held_upto(matches, j, upto) == held_upto(matches, j, j),
        upto <= j ==> held_upto(matches, j, upto) <= held_upto(matches, j, j),
    decreases if upto >= j { upto - j } else { j - upto },
{
    if upto > j && upto > 0 {
        lemma_held_upto(matches, j, upto - 1);
    } else if upto < j {
        lemma_held_upto(matches, j, upto + 1);
    }
}

/// The number that the digits from `from` to before `to` write.
fn read_digits(chars: &[char], from: usize, to: usize) -> (r: Option<u32>)
    requires
        from <= to <= chars.len(),
    ensures
        r == digits_value(chars@.subrange(from as int, to as int)),
{
    if from == to {
        return None;
    }
    let ghost digits = chars@.subrange(from as int, to as int);
    let mut value: u32 = 0;
    let mut pos = from;
    while pos < to
        invariant
            from <= pos <= to <= chars.len(),
            from < to,
            digits == chars@.subrange(from as int, to as int),
            forall|i: int| 0 <= i < pos - from ==> is_digit(#[trigger] digits[i]),
            value == decimal_value(digits.take(pos - from)),
        decreases to - pos,
    {
        let c = chars[pos];
        if !is_decimal(&c) {
            assert(!is_digit(digits[pos - from]));
            return None;
        }
        proof {
            let longer = digits.take(pos - from + 1);
            assert(longer.drop_last() =~= digits.take(pos - from));
            lemma_decimal_value_grows(digits, pos - from + 1, digits.len() as int);
            assert(digits.take(digits.len() as int) =~= digits);
        }
        value =
        match value.checked_mul(10) {
            Some(tens) => match tens.checked_add(digit_of(c) as u32) {
                Some(more) => more,
                None => {
                    return None;
                },
            },
            None => {
                return None;
            },
        };
        pos += 1;
    }
    proof {
        assert(digits.take(digits.len() as int) =~= digits);
    }
    Some(value)
}

/// The number that the characters from `from` to before `to` write.
fn read_number(chars: &[char], from: usize, to: usize) -> (r: Option<u32>)
    requires
        from <= to <= chars.len(),
    ensures
        r == token_value(chars@.subrange(from as int, to as int)),
{
    let ghost token = chars@.subrange(from as int, to as int);
    if from < to && chars[from] == '+' {
        proof {
            assert(token.skip(1) =~= chars@.subrange(from + 1, to as int));
        }
        read_digits(chars, from + 1, to)
    } else {
        read_digits(chars, from, to)
    }
}

/// The numbers of the list `text`, in the order of the text.
pub fn numbers(text: &[char]) -> (r: Vec<u32>)
    ensures
        r@ == numbers_of(text@),
{
    let ghost s = text@;
    let mut found: Vec<u32> = Vec::new();
    let mut from: usize = 0;
    let mut more = true;
    while more
        invariant
            s == text@,
            0 <= from <= text.len(),
            more ==> numbers_of(s) == found@ + numbers_from(s, from as int),
            !more ==> numbers_of(s) == found@,
        decreases text.len() - from + if more { 1int } else { 0int },
    {
        let end = find(text, ' ', from);
        proof {
            let rest = if end < text.len() {
                numbers_from(s, end + 1)
            } else {
                Seq::empty()
            };
            assert(numbers_from(s, from as int) == match token_value(
                s.subrange(from as int, end as int),
            ) {
                Some(n) => seq![n] + rest,
                None => rest,
            });
        }
        match read_number(text, from, end) {
            Some(n) => {
                found.push(n);
            },
            None => {},
        }
        if end < text.len() {
            from = end + 1;
        } else {
            more = false;
        }
    }
    found
}

/// How many different numbers stand in both lists.
pub fn count_matching(winning: &[u32], held: &[u32]) -> (r: usize)
    ensures
        r == matching(winning@, held@),
{
    broadcast use vstd::std_specs::hash::group_hash_axioms;

    let mut held_set: HashSet<u32> = HashSet::new();
    let mut i: usize = 0;
    while i < held.len()
        invariant
            0 <= i <= held.len(),
            held_set@ == held@.take(i as int).to_set(),
        decreases held.len() - i,
    {
        held_set.insert(held[i]);
        proof {
            let longer = held@.take(i + 1);
            assert(longer.to_set() =~= held@.take(i as int).to_set().insert(held@[i as int])) by {
                assert forall|n: u32| longer.to_set().contains(n) implies held@.take(
                    i as int,
                ).to_set().insert(held@[i as int]).contains(n) by {}
                assert forall|n: u32|
                    held@.take(i as int).to_set().insert(held@[i as int]).contains(
                        n,
                    ) implies longer.to_set().contains(n) by {
                    if n == held@[i as int] {
                        assert(longer[i as int] == n);
                    }
                }
            }
        }
        i += 1;
    }
    proof {
        assert(held@.take(held.len() as int) =~= held@);
    }
    let mut both: HashSet<u32> = HashSet::new();
    let mut i: usize = 0;
    while i < winning.len()
        invariant
            0 <= i <= winning.len(),
            held_set@ == held@.to_set(),
            both@ == winning@.take(i as int).to_set().intersect(held@.to_set()),
        decreases winning.len() - i,
    {
        let n = winning[i];
        let ghost before = winning@.take(i as int);
        let ghost longer = winning@.take(i + 1);
        if held_set.contains(&n) {
            both.insert(n);
        }
        proof {
            assert forall|m: u32| longer.to_set().contains(m) <==> (before.to_set().contains(m)
                || m == n) by {
                if m == n {
                    assert(longer[i as int] == m);
                }
            }
        }
        i += 1;
    }
    proof {
        assert(winning@.take(winning.len() as int) =~= winning@);
    }
    both.len()
}

/// The characters from `from` to before `to`.
fn copy_range(chars: &[char], from: usize, to: usize) -> (r: Vec<char>)
    requires
        from <= to <= chars.len(),
    ensures
        r@ == chars@.subrange(from as int, to as int),
{
    let mut r: Vec<char> = Vec::new();
    let mut i = from;
    while i < to
        invariant
            from <= i <= to <= chars.len(),
            r@ == chars@.subrange(from as int, i as int),
        decreases to - i,
    {
        r.push(chars[i]);
        i += 1;
    }
    r
}

/// How many of the winning numbers of the card `line` are held; nothing if
/// the line is no card.
pub fn matching_numbers(line: &[char]) -> (r: Option<usize>)
    ensures
        match card_matches(line@) {
            Some(n) => r == Some(n as usize) && n <= usize::MAX,
            None => r is None,
        },
{
    let colon = find(line, ':', 0);
    if colon >= line.len() {
        return None;
    }
    let body_end = find(line, ':', colon + 1);
    let bar = find(line, '|', colon + 1);
    if bar >= body_end {
        return None;
    }
    let second = find(line, '|', bar + 1);
    let held_end = if second < body_end {
        second
    } else {
        body_end
    };
    let winning = numbers(copy_range(line, colon + 1, bar).as_slice());
    let held = numbers(copy_range(line, bar + 1, held_end).as_slice());
    Some(count_matching(winning.as_slice(), held.as_slice()))
}

/// The matches of the cards of `table`, one line to a card, in the order of
/// the text. Lines that are no cards are passed over.
pub fn count_matches(table: &str) -> (r: Vec<usize>)
    ensures
        r@.len() == matches_from(table@, 0).len(),
        forall|i: int| 0 <= i < r@.len() ==> r@[i] == matches_from(table@, 0)[i],
{
    let chars = to_chars(table);
    let ghost s = chars@;
    let mut found: Vec<usize> = Vec::new();
    let mut from: usize = 0;
    let ghost mut done: Seq<nat> = Seq::empty();
    while from < chars.len()
        invariant
            s == chars@,
            s == table@,
            0 <= from <= chars.len(),
            same_numbers(found@, done),
            matches_from(s, 0) == done + matches_from(s, from as int),
        decreases chars.len() - from,
    {
        let end = find(chars.as_slice(), '\n', from);
        let stop = if end < chars.len() && from < end && chars[end - 1] == '\r' {
            end - 1
        } else {
            end
        };
        let line = copy_range(chars.as_slice(), from, stop);
        proof {
            let rest = if end < chars.len() {
                matches_from(s, end + 1)
            } else {
                Seq::empty()
            };
            assert(line@ == line_between(s, from as int, end as int));
            assert(matches_from(s, from as int) == match card_matches(line@) {
                Some(n) => seq![n] + rest,
                None => rest,
            });
        }
        match matching_numbers(line.as_slice()) {
            Some(n) => {
                found.push(n);
                proof {
                    done = done.push(n as nat);
                }
            },
            None => {},
        }
        if end < chars.len() {
            from = end + 1;
        } else {
            from = chars.len();
        }
    }
    found
}

/// Whether the vector's numbers are the numbers of `n`, one by one.
spec fn same_numbers(v: Seq<usize>, n: Seq<nat>) -> bool {
    v.len() == n.len() && forall|i: int| 0 <= i < v.len() ==> v[i] == n[i]
}

/// What a card with `matches` matches is worth, unless it is more than
/// `usize::MAX`: nothing without a match, one point for the first match,
/// and twice as much with each further one.
pub fn card_points(matches: usize) -> (r: Option<usize>)
    ensures
        r == checked_usize(points(matches as nat)),
{
    if matches == 0 {
        return Some(0);
    }
    let mut worth: usize = 1;
    let mut counted: usize = 1;
    proof {
        vstd::arithmetic::power2::lemma2_to64();
    }
    while counted < matches
        invariant
            1 <= counted <= matches,
            worth == pow2((counted - 1) as nat),
        decreases matches - counted,
    {
        proof {
            lemma_pow2_unfold(counted as nat);
            if counted < matches - 1 {
                lemma_pow2_strictly_increases(counted as nat, (matches - 1) as nat);
            }
        }
        worth =
        match worth.checked_mul(2) {
            Some(twice) => twice,
            None => {
                return None;
            },
        };
        counted += 1;
    }
    Some(worth)
}

/// The points of all the cards, unless they are more than `usize::MAX`.
pub fn total_points(matches: &[usize]) -> (r: Option<usize>)
    ensures
        r == checked_usize(all_points(matches@)),
{
    let ghost by_card = points_by_card(matches@);
    let mut sum: usize = 0;
    let mut i: usize = 0;
    while i < matches.len()
        invariant
            by_card == points_by_card(matches@),
            0 <= i <= matches.len(),
            sum == sum_to(by_card, i as int),
        decreases matches.len() - i,
    {
        proof {
            lemma_sum_to_grows(by_card, i + 1, matches.len() as int);
        }
        let next = match card_points(matches[i]) {
            Some(worth) => sum.checked_add(worth),
            None => None,
        };
        match next {
            Some(next) => {
                sum = next;
            },
            None => {
                return None;
            },
        }
        i += 1;
    }
    Some(sum)
}

/// How many cards are held in the end, unless they are more than
/// `usize::MAX`. One of each card is held at the start, and every card that
/// is held adds one copy of each of the cards that follow it, as many of
/// them as it has matches and as there are.
pub fn total_cards(matches: &[usize]) -> (r: Option<usize>)
    ensures
        r == checked_usize(all_cards(matches@)),
{
    let rounds = matches.len();
    let ghost m = matches@;
    let ghost by_card = held_by_card(m);
    let mut held: Vec<usize> = Vec::new();
    while held.len() < rounds
        invariant
            held.len() <= rounds,
            forall|j: int| 0 <= j < held.len() ==> held@[j] == 1,
        decreases rounds - held.len(),
    {
        held.push(1);
    }
    let mut sum: usize = 0;
    let mut i: usize = 0;
    while i < rounds
        invariant
            m == matches@,
            by_card == held_by_card(m),
            rounds == m.len(),
            held.len() == rounds,
            0 <= i <= rounds,
            forall|j: int| 0 <= j < rounds ==> held@[j] == held_upto(m, j, i as int),
            sum == sum_to(by_card, i as int),
        decreases rounds - i,
    {
        let copies = held[i];
        let wins = matches[i];
        let last = if wins < rounds - i - 1 {
            i + wins
        } else {
            rounds - 1
        };
        proof {
            lemma_sum_to_grows(by_card, i + 1, rounds as int);
        }
        sum =
        match sum.checked_add(copies) {
            Some(more) => more,
            None => {
                return None;
            },
        };
        let mut j = i + 1;
        while j <= last
            invariant
                m == matches@,
                by_card == held_by_card(m),
                rounds == m.len(),
                held.len() == rounds,
                0 <= i < j <= last + 1 <= rounds,
                wins == m[i as int],
                last == if wins < rounds - i - 1 {
                    i + wins
                } else {
                    rounds - 1
                },
                copies == held_upto(m, i as int, i as int),
                forall|k: int|
                    0 <= k < rounds ==> held@[k] == if k < j {
                        held_upto(m, k, i + 1)
                    } else {
                        held_upto(m, k, i as int)
                    },
            decreases last + 1 - j,
        {
            proof {
                lemma_held_upto(m, j as int, i + 1);
                lemma_sum_to_grows(by_card, j + 1, rounds as int);
            }
            let more = match held[j].checked_add(copies) {
                Some(more) => more,
                None => {
                    return None;
                },
            };
            held.set(j, more);
            j += 1;
        }
        i += 1;
    }
    Some(sum)
}

} // verus!
