//! Groups as text: how the counts of a group are written, and the proof that
//! reading what was written gives the counts back.

use crate::record_parser::{
    count_at, counts_at, more_counts_at, number_end, observation_at, observe, padded_word_at,
    skip_blanks, ParseError,
};
use crate::records::{color_word, Color, Observation};
use crate::text::{decimal_value, digit_char, is_digit, word_at};
use vstd::prelude::*;

verus! {

/// The digits that write `n`, without leading zeros.
pub open spec fn written_number(n: nat) -> Seq<char>
    decreases n,
{
    if n < 10 {
        seq![digit_char(n as int)]
    } else {
        written_number(n / 10).push(digit_char((n % 10) as int))
    }
}

/// A count as it is written: the number, a space, the colour.
pub open spec fn written_count(count: (usize, Color)) -> Seq<char> {
    written_number(count.0 as nat) + seq![' '] + color_word(count.1)
}

/// A group as it is written: its counts with a comma and a space between
/// them.
pub open spec fn written_group(counts: Seq<(usize, Color)>) -> Seq<char>
    decreases counts.len(),
{
    if counts.len() == 0 {
        Seq::empty()
    } else if counts.len() == 1 {
        written_count(counts[0])
    } else {
        written_count(counts[0]) + seq![',', ' '] + written_group(counts.drop_first())
    }
}

/// Whether `i` is the place of the last count of `color`.
pub open spec fn is_last_of(counts: Seq<(usize, Color)>, color: Color, i: int) -> bool {
    &&& 0 <= i < counts.len()
    &&& counts[i].1 == color
    &&& forall|j: int| i < j < counts.len() ==> (#[trigger] counts[j]).1 != color
}

/// A written number is made of digits, one at least, and is worth the number.
pub proof fn lemma_written_number(n: nat)
    ensures
        written_number(n).len() >= 1,
        forall|i: int|
            0 <= i < written_number(n).len() ==> is_digit(#[trigger] written_number(n)[i]),
        decimal_value(written_number(n)) == n,
    decreases n,
{
    if n < 10 {
        let w = written_number(n);
        assert(decimal_value(w.drop_last()) == 0);
    } else {
        lemma_written_number(n / 10);
        let w = written_number(n);
        assert(w.drop_last() =~= written_number(n / 10));
    }
}

/// A stretch of digits ends the number that begins with it, where no digit
/// and no underscore follows.
proof fn lemma_number_ends(s: Seq<char>, pos: int, end: int)
    requires
        0 <= pos <= end <= s.len(),
        forall|i: int| pos <= i < end ==> is_digit(#[trigger] s[i]),
        end < s.len() ==> !is_digit(s[end]) && s[end] != '_',
    ensures
        number_end(s, pos) == end,
    decreases end - pos,
{
    if pos < end {
        lemma_number_ends(s, pos + 1, end);
    }
}

/// A written count is read as the count, up to its end, where the text ends
/// behind it or goes on with a comma.
proof fn lemma_count_is_read(s: Seq<char>, pos: int, count: (usize, Color))
    requires
        word_at(s, pos, written_count(count)),
        pos + written_count(count).len() == s.len() || s[pos + written_count(count).len()] == ',',
    ensures
        count_at(s, pos) == Ok::<((usize, Color), int), ParseError>(
            (count, pos + written_count(count).len()),
        ),
{
    let number = written_number(count.0 as nat);
    let name = color_word(count.1);
    let text = written_count(count);
    let a = number.len() as int;
    let end = pos + text.len();
    lemma_written_number(count.0 as nat);
    assert forall|i: int| 0 <= i < text.len() implies s[pos + i] == text[i] by {}
    assert forall|i: int| pos <= i < pos + a implies is_digit(#[trigger] s[i]) by {
        assert(s[i] == text[i - pos]);
    }
    assert(s[pos + a] == ' ') by {
        assert(s[pos + a] == text[a]);
    }
    lemma_number_ends(s, pos, pos + a);
    assert(s.subrange(pos, pos + a) =~= number) by {
        assert forall|i: int| 0 <= i < a implies s.subrange(pos, pos + a)[i] == number[i] by {}
    }
    assert(s[pos + a + 1] == name[0]) by {
        assert(s[pos + a + 1] == text[a + 1]);
    }
    assert(skip_blanks(s, pos + a) == pos + a + 1) by {
        assert(skip_blanks(s, pos + a) == skip_blanks(s, pos + a + 1));
    }
    assert(s.subrange(pos + a + 1, end) =~= name) by {
        assert forall|i: int| 0 <= i < name.len() implies s.subrange(pos + a + 1, end)[i]
            == name[i] by {
            assert(s[pos + a + 1 + i] == text[a + 1 + i]);
        }
    }
    assert forall|other: Color| other != count.1 implies padded_word_at(
        s,
        pos + a,
        #[trigger] color_word(other),
    ) is None by {}
}

/// A written group that ends the text is read as its counts: the first count
/// at `pos`, and the further ones behind it.
proof fn lemma_counts_are_read(s: Seq<char>, pos: int, counts: Seq<(usize, Color)>)
    requires
        counts.len() >= 1,
        0 <= pos <= s.len(),
        s.subrange(pos, s.len() as int) == written_group(counts),
    ensures
        count_at(s, pos) == Ok::<((usize, Color), int), ParseError>(
            (counts[0], pos + written_count(counts[0]).len()),
        ),
        more_counts_at(s, pos + written_count(counts[0]).len()) == (
            counts.drop_first(),
            s.len() as int,
        ),
    decreases counts.len(),
{
    let first = written_count(counts[0]);
    let end = pos + first.len();
    let group = written_group(counts);
    let rest = counts.drop_first();
    assert forall|i: int| 0 <= i < group.len() implies s[pos + i] == group[i] by {}
    if counts.len() == 1 {
        lemma_count_is_read(s, pos, counts[0]);
    } else {
        let tail = written_group(rest);
        assert(group == first + seq![',', ' '] + tail);
        assert(s.subrange(pos, pos + first.len()) =~= first) by {
            assert forall|i: int| 0 <= i < first.len() implies s.subrange(pos, pos + first.len())[i]
                == first[i] by {}
        }
        assert(s[end] == ',') by {
            assert(s[end] == group[first.len() as int]);
        }
        assert(s[end + 1] == ' ') by {
            assert(s[end + 1] == group[first.len() as int + 1]);
        }
        lemma_count_is_read(s, pos, counts[0]);
        assert(s.subrange(end + 2, s.len() as int) =~= tail) by {
            assert forall|i: int| 0 <= i < tail.len() implies s.subrange(end + 2, s.len() as int)[i]
                == tail[i] by {
                assert(s[pos + (first.len() as int + 2 + i)] == group[first.len() as int + 2 + i]);
            }
        }
        lemma_counts_are_read(s, end + 2, rest);
        let next = written_count(rest[0]);
        assert(s[end + 2] == next[0]) by {
            assert(s.subrange(end + 2, s.len() as int)[0] == tail[0]);
        }
        assert(is_digit(s[end + 2]));
        assert(s.subrange(end, end + 1) =~= seq![',']);
        assert(skip_blanks(s, end + 1) == end + 2) by {
            assert(skip_blanks(s, end + 1) == skip_blanks(s, end + 2));
        }
    }
}

/// Reading a written group gives its counts back, and the group that they
/// make, and leaves nothing of the text.
pub proof fn lemma_group_round_trip(counts: Seq<(usize, Color)>)
    requires
        counts.len() >= 1,
    ensures
        counts_at(written_group(counts), 0) == Ok::<
            (Seq<(usize, Color)>, int),
            ParseError,
        >((counts, written_group(counts).len() as int)),
        observation_at(written_group(counts), 0) == Ok::<
            (Observation, int),
            ParseError,
        >((observe(counts), written_group(counts).len() as int)),
{
    let s = written_group(counts);
    assert(s.subrange(0, s.len() as int) =~= s);
    lemma_counts_are_read(s, 0, counts);
    assert(seq![counts[0]] + counts.drop_first() =~= counts);
}

/// The fields of a group are the counts written last for each colour: the
/// group holds a count for a colour exactly when one is written, and then
/// the last one.
pub proof fn lemma_group_holds_last_counts(counts: Seq<(usize, Color)>, color: Color)
    ensures
        match observe(counts).count(color) {
            Some(n) => exists|i: int| #[trigger] is_last_of(counts, color, i) && counts[i].0 == n,
            None => forall|i: int| 0 <= i < counts.len() ==> (#[trigger] counts[i]).1 != color,
        },
    decreases counts.len(),
{
    if counts.len() > 0 {
        let fewer = counts.drop_last();
        let last = counts.len() - 1;
        lemma_group_holds_last_counts(fewer, color);
        if counts[last].1 == color {
            assert(is_last_of(counts, color, last));
        } else {
            match observe(fewer).count(color) {
                Some(n) => {
                    let i = choose|i: int|
                        #[trigger] is_last_of(fewer, color, i) && fewer[i].0 == n;
                    assert forall|j: int| i < j < counts.len() implies (#[trigger] counts[j]).1
                        != color by {
                        if j < last {
                            assert(fewer[j] == counts[j]);
                        }
                    }
                    assert(is_last_of(counts, color, i));
                },
                None => {
                    assert forall|i: int| 0 <= i < counts.len() implies (#[trigger] counts[i]).1
                        != color by {
                        if i < last {
                            assert(fewer[i] == counts[i]);
                        }
                    }
                },
            }
        }
    }
}

/// Where every colour is written once at most, the group holds just the
/// counts that are written.
pub proof fn lemma_group_holds_its_counts(counts: Seq<(usize, Color)>, n: usize, color: Color)
    requires
        forall|i: int, j: int|
            0 <= i < j < counts.len() ==> (#[trigger] counts[i]).1 != (#[trigger] counts[j]).1,
    ensures
        observe(counts).count(color) == Some(n) <==> counts.contains((n, color)),
{
    lemma_group_holds_last_counts(counts, color);
    if counts.contains((n, color)) {
        let k = choose|k: int| 0 <= k < counts.len() && counts[k] == (n, color);
        let m = observe(counts).count(color).unwrap();
        let i = choose|i: int| #[trigger] is_last_of(counts, color, i) && counts[i].0 == m;
        assert(i == k);
    }
}

} // verus!
