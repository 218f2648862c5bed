//! Game records: what was seen of three colours, and what that allows.

use crate::text::{checked_usize, lemma_sum_to_grows, sum_to};
use vstd::prelude::*;

verus! {

/// The three colours that a record counts.
#[derive(Debug, Clone, Copy, PartialEq, Eq, Structural)]
pub enum Color {
    Red,
    Green,
    Blue,
}

/// The name of a colour.
pub open spec fn color_word(color: Color) -> Seq<char> {
    match color {
        Color::Red => seq!['r', 'e', 'd'],
        Color::Green => seq!['g', 'r', 'e', 'e', 'n'],
        Color::Blue => seq!['b', 'l', 'u', 'e'],
    }
}

impl Color {
    /// The name of the colour.
    pub fn name(self) -> (r: &'static str)
        ensures
            r@ == color_word(self),
    {
        proof {
            reveal_strlit("red");
            reveal_strlit("green");
            reveal_strlit("blue");
        }
        let r = match self {
            Color::Red => "red",
            Color::Green => "green",
            Color::Blue => "blue",
        };
        r
    }
}

/// One group of a record: for each colour the count that was seen, or
/// nothing where the group does not name the colour.
#[derive(Debug, Clone, Copy, PartialEq, Eq)]
pub struct Observation {
    pub red: Option<usize>,
    pub green: Option<usize>,
    pub blue: Option<usize>,
}

/// One record: its number and its groups in the order of the text.
#[derive(Debug, PartialEq, Eq)]
pub struct Game {
    pub id: usize,
    pub observations: Vec<Observation>,
}

/// A record as a mathematical value.
pub struct GameView {
    pub id: usize,
    pub observations: Seq<Observation>,
}

impl View for Game {
    type V = GameView;

    open spec fn view(&self) -> GameView {
        GameView { id: self.id, observations: self.observations@ }
    }
}

impl Observation {
    /// The count that the group gives for `color`.
    pub open spec fn count(self, color: Color) -> Option<usize> {
        match color {
            Color::Red => self.red,
            Color::Green => self.green,
            Color::Blue => self.blue,
        }
    }

    /// The group with the count of `color` set to `n`.
    pub open spec fn with_count(self, n: usize, color: Color) -> Observation {
        match color {
            Color::Red => Observation { red: Some(n), ..self },
            Color::Green => Observation { green: Some(n), ..self },
            Color::Blue => Observation { blue: Some(n), ..self },
        }
    }

    /// Whether no count of the group is above its bound.
    pub open spec fn within(self, red: usize, green: usize, blue: usize) -> bool {
        &&& self.red matches Some(n) ==> n <= red
        &&& self.green matches Some(n) ==> n <= green
        &&& self.blue matches Some(n) ==> n <= blue
    }
}

impl Observation {
    /// The group that names no colour.
    pub fn new() -> (r: Observation)
        ensures
            r == nothing_seen(),
    {
        Observation { red: None, green: None, blue: None }
    }

    /// The group with the count of `color` set to `n`.
    pub fn set_count(self, n: usize, color: Color) -> (r: Observation)
        ensures
            r == self.with_count(n, color),
    {
        match color {
            Color::Red => Observation { red: Some(n), green: self.green, blue: self.blue },
            Color::Green => Observation { red: self.red, green: Some(n), blue: self.blue },
            Color::Blue => Observation { red: self.red, green: self.green, blue: Some(n) },
        }
    }
}

/// The records that a vector holds.
pub open spec fn views(games: Seq<Game>) -> Seq<GameView> {
    Seq::new(games.len(), |i: int| games[i]@)
}

/// The group that names no colour.
pub open spec fn nothing_seen() -> Observation {
    Observation { red: None, green: None, blue: None }
}

/// Whether no count of any group is above its bound.
pub open spec fn all_within(
    observations: Seq<Observation>,
    red: usize,
    green: usize,
    blue: usize,
) -> bool {
    forall|i: int| 0 <= i < observations.len() ==> (#[trigger] observations[i]).within(
        red,
        green,
        blue,
    )
}

/// The counts that the groups give for `color`, group by group.
pub open spec fn counts_of(observations: Seq<Observation>, color: Color) -> Seq<Option<usize>> {
    Seq::new(observations.len(), |i: int| observations[i].count(color))
}

/// Whether `m` is the largest of the counts that are there: nothing if none
/// is there, and else a count that occurs and that no other exceeds.
pub open spec fn is_largest(counts: Seq<Option<usize>>, m: Option<usize>) -> bool {
    match m {
        None => forall|i: int| 0 <= i < counts.len() ==> (#[trigger] counts[i]) is None,
        Some(n) => {
            &&& exists|i: int| 0 <= i < counts.len() && #[trigger] counts[i] == Some(n)
            &&& forall|i: int|
                0 <= i < counts.len() ==> ((#[trigger] counts[i]) matches Some(k) ==> k <= n)
        },
    }
}

/// The larger of two counts, where nothing is less than any count.
pub open spec fn larger(a: Option<usize>, b: Option<usize>) -> Option<usize> {
    match (a, b) {
        (Some(m), Some(n)) => if m >= n {
            a
        } else {
            b
        },
        (Some(_), None) => a,
        (None, _) => b,
    }
}

/// The largest of the counts that are there, or nothing if none is there.
pub open spec fn largest(counts: Seq<Option<usize>>) -> Option<usize>
    decreases counts.len(),
{
    if counts.len() == 0 {
        None
    } else {
        larger(largest(counts.drop_last()), counts.last())
    }
}

/// For each colour the largest count that the groups give.
pub open spec fn least_bound(observations: Seq<Observation>) -> Observation {
    Observation {
        red: largest(counts_of(observations, Color::Red)),
        green: largest(counts_of(observations, Color::Green)),
        blue: largest(counts_of(observations, Color::Blue)),
    }
}

/// Whether `m` holds, for each colour, the largest count that the groups give.
pub open spec fn is_least_bound(observations: Seq<Observation>, m: Observation) -> bool {
    &&& is_largest(counts_of(observations, Color::Red), m.red)
    &&& is_largest(counts_of(observations, Color::Green), m.green)
    &&& is_largest(counts_of(observations, Color::Blue), m.blue)
}

/// `largest` gives the largest of the counts.
pub proof fn lemma_largest(counts: Seq<Option<usize>>)
    ensures
        is_largest(counts, largest(counts)),
    decreases counts.len(),
{
    if counts.len() > 0 {
        let fewer = counts.drop_last();
        lemma_largest(fewer);
        if let Some(n) = largest(counts) {
            if largest(counts) == largest(fewer) {
                let i = choose|i: int| 0 <= i < fewer.len() && #[trigger] fewer[i] == Some(n);
                assert(counts[i] == Some(n));
            } else {
                assert(counts[counts.len() - 1] == Some(n));
            }
            assert forall|i: int| 0 <= i < counts.len() implies (
            (#[trigger] counts[i]) matches Some(k) ==> k <= n) by {
                if i < fewer.len() {
                    assert(fewer[i] == counts[i]);
                }
            }
        } else {
            assert forall|i: int| 0 <= i < counts.len() implies (#[trigger] counts[i]) is None by {
                if i < fewer.len() {
                    assert(fewer[i] == counts[i]);
                }
            }
        }
    }
}

/// `least_bound` gives, for each colour, the largest count of the groups.
pub proof fn lemma_least_bound(observations: Seq<Observation>)
    ensures
        is_least_bound(observations, least_bound(observations)),
{
    lemma_largest(counts_of(observations, Color::Red));
    lemma_largest(counts_of(observations, Color::Green));
    lemma_largest(counts_of(observations, Color::Blue));
}

/// Only one value is the largest of some counts.
pub proof fn lemma_largest_is_unique(counts: Seq<Option<usize>>, a: Option<usize>, b: Option<usize>)
    requires
        is_largest(counts, a),
        is_largest(counts, b),
    ensures
        a == b,
{
    if let Some(n) = a {
        let i = choose|i: int| 0 <= i < counts.len() && #[trigger] counts[i] == Some(n);
        assert(counts[i] is Some);
    }
    if let Some(n) = b {
        let i = choose|i: int| 0 <= i < counts.len() && #[trigger] counts[i] == Some(n);
        assert(counts[i] is Some);
    }
}

/// What is possible under some bounds stays possible under larger ones.
pub proof fn lemma_possible_under_larger_bounds(
    observations: Seq<Observation>,
    red: usize,
    green: usize,
    blue: usize,
    more_red: usize,
    more_green: usize,
    more_blue: usize,
)
    requires
        all_within(observations, red, green, blue),
        red <= more_red,
        green <= more_green,
        blue <= more_blue,
    ensures
        all_within(observations, more_red, more_green, more_blue),
{
    assert forall|i: int| 0 <= i < observations.len() implies (#[trigger] observations[i]).within(
        more_red,
        more_green,
        more_blue,
    ) by {}
}

/// The largest counts are the least bounds: a record is possible under some
/// bounds exactly when its largest counts are within them.
pub proof fn lemma_possible_iff_least_bound_within(
    observations: Seq<Observation>,
    m: Observation,
    red: usize,
    green: usize,
    blue: usize,
)
    requires
        is_least_bound(observations, m),
    ensures
        all_within(observations, red, green, blue) <==> m.within(red, green, blue),
{
    let reds = counts_of(observations, Color::Red);
    let greens = counts_of(observations, Color::Green);
    let blues = counts_of(observations, Color::Blue);
    if all_within(observations, red, green, blue) {
        if let Some(n) = m.red {
            let i = choose|i: int| 0 <= i < reds.len() && #[trigger] reds[i] == Some(n);
            assert(observations[i].within(red, green, blue));
        }
        if let Some(n) = m.green {
            let i = choose|i: int| 0 <= i < greens.len() && #[trigger] greens[i] == Some(n);
            assert(observations[i].within(red, green, blue));
        }
        if let Some(n) = m.blue {
            let i = choose|i: int| 0 <= i < blues.len() && #[trigger] blues[i] == Some(n);
            assert(observations[i].within(red, green, blue));
        }
    }
    if m.within(red, green, blue) {
        assert forall|i: int| 0 <= i < observations.len() implies (
        #[trigger] observations[i]).within(red, green, blue) by {
            assert(reds[i] == observations[i].red);
            assert(greens[i] == observations[i].green);
            assert(blues[i] == observations[i].blue);
        }
    }
}

/// Whether the record could have been seen with at most `red`, `green` and
/// `blue` of the three colours at hand.
pub fn possible(game: &Game, red: usize, green: usize, blue: usize) -> (r: bool)
    ensures
        r == all_within(game@.observations, red, green, blue),
{
    let mut i: usize = 0;
    while i < game.observations.len()
        invariant
            0 <= i <= game.observations.len(),
            all_within(game@.observations.take(i as int), red, green, blue),
        decreases game.observations.len() - i,
    {
        let observed = &game.observations[i];
        if let Some(observed_red) = observed.red {
            if observed_red > red {
                return false;
            }
        }
        if let Some(observed_blue) = observed.blue {
            if observed_blue > blue {
                return false;
            }
        }
        if let Some(observed_green) = observed.green {
            if observed_green > green {
                return false;
            }
        }
        proof {
            let done = game@.observations.take(i + 1);
            assert forall|k: int| 0 <= k < done.len() implies (#[trigger] done[k]).within(
                red,
                green,
                blue,
            ) by {}
        }
        i += 1;
    }
    assert(game@.observations.take(i as int) == game@.observations);
    true
}

/// The largest of the counts that are there.
pub fn max(count: &[Option<usize>]) -> (r: Option<usize>)
    ensures
        is_largest(count@, r),
        r == largest(count@),
{
    let mut best: Option<usize> = None;
    let mut i: usize = 0;
    while i < count.len()
        invariant
            0 <= i <= count.len(),
            is_largest(count@.take(i as int), best),
        decreases count.len() - i,
    {
        let ghost after = count@.take(i + 1);
        if let Some(n) = count[i] {
            match best {
                Some(m) if m >= n => {},
                _ => {
                    best = Some(n);
                },
            }
        }
        proof {
            assert(after[i as int] == count@[i as int]);
        }
        i += 1;
    }
    assert(count@.take(i as int) == count@);
    proof {
        lemma_largest(count@);
    }
    best
}

/// The fewest of each colour with which the record could have been seen:
/// for each colour the largest count of any group, and nothing for a colour
/// that no group names.
pub fn min_possible(game: &Game) -> (r: Observation)
    ensures
        is_least_bound(game@.observations, r),
        r == least_bound(game@.observations),
{
    let mut reds: Vec<Option<usize>> = Vec::new();
    let mut greens: Vec<Option<usize>> = Vec::new();
    let mut blues: Vec<Option<usize>> = Vec::new();
    let mut i: usize = 0;
    while i < game.observations.len()
        invariant
            0 <= i <= game.observations.len(),
            reds@ == counts_of(game@.observations, Color::Red).take(i as int),
            greens@ == counts_of(game@.observations, Color::Green).take(i as int),
            blues@ == counts_of(game@.observations, Color::Blue).take(i as int),
        decreases game.observations.len() - i,
    {
        let observed = &game.observations[i];
        reds.push(observed.red);
        greens.push(observed.green);
        blues.push(observed.blue);
        i += 1;
    }
    proof {
        assert(reds@ =~= counts_of(game@.observations, Color::Red));
        assert(greens@ =~= counts_of(game@.observations, Color::Green));
        assert(blues@ =~= counts_of(game@.observations, Color::Blue));
    }
    Observation {
        red: max(reds.as_slice()),
        blue: max(blues.as_slice()),
        green: max(greens.as_slice()),
    }
}

/// The numbers of the records that are possible under the bounds, record by
/// record; a record that is not possible counts for nothing.
pub open spec fn possible_ids(
    games: Seq<GameView>,
    red: usize,
    green: usize,
    blue: usize,
) -> spec_fn(int) -> nat {
    |i: int|
        if all_within(games[i].observations, red, green, blue) {
            games[i].id as nat
        } else {
            0
        }
}

/// The sum of the numbers of the records that could have been seen with at
/// most `red`, `green` and `blue` of the three colours at hand, unless it is
/// more than `usize::MAX`.
pub fn sum_of_possible_ids(games: &[Game], red: usize, green: usize, blue: usize) -> (r: Option<
    usize,
>)
    ensures
        r == checked_usize(
            sum_to(possible_ids(views(games@), red, green, blue), games.len() as int),
        ),
{
    let ghost ids = possible_ids(views(games@), red, green, blue);
    let mut sum: usize = 0;
    let mut i: usize = 0;
    while i < games.len()
        invariant
            ids == possible_ids(views(games@), red, green, blue),
            0 <= i <= games.len(),
            sum == sum_to(ids, i as int),
        decreases games.len() - i,
    {
        proof {
            lemma_sum_to_grows(ids, i + 1, games.len() as int);
        }
        if possible(&games[i], red, green, blue) {
            sum =
            match sum.checked_add(games[i].id) {
                Some(more) => more,
                None => {
                    return None;
                },
            };
        }
        i += 1;
    }
    Some(sum)
}

impl Observation {
    /// The power of the group: the product of its three counts, if it names
    /// all three colours.
    pub open spec fn spec_power(self) -> Option<nat> {
        match (self.red, self.green, self.blue) {
            (Some(red), Some(green), Some(blue)) => Some((red * green * blue) as nat),
            _ => None,
        }
    }

    /// The power of the group, unless it leaves a colour out or the power is
    /// more than `usize::MAX`.
    pub fn power(&self) -> (r: Option<usize>)
        ensures
            r == match self.spec_power() {
                Some(p) => checked_usize(p),
                None => None,
            },
    {
        match (self.red, self.green, self.blue) {
            (Some(red), Some(green), Some(blue)) => {
                if red == 0 || green == 0 || blue == 0 {
                    assert(red * green * blue == 0) by (nonlinear_arith)
                        requires
                            red == 0 || green == 0 || blue == 0,
                    ;
                    Some(0)
                } else {
                    assert(red * green <= red * green * blue) by (nonlinear_arith)
                        requires
                            red >= 1,
                            green >= 1,
                            blue >= 1,
                    ;
                    match red.checked_mul(green) {
                        Some(both) => both.checked_mul(blue),
                        None => None,
                    }
                }
            },
            _ => None,
        }
    }
}

/// Whether every record names each of the three colours in some group.
pub open spec fn all_colours_seen(games: Seq<GameView>) -> bool {
    forall|i: int|
        0 <= i < games.len() ==> least_bound((#[trigger] games[i]).observations).spec_power()
            is Some
}

/// The powers of the least bounds of the records, record by record.
pub open spec fn powers(games: Seq<GameView>) -> spec_fn(int) -> nat {
    |i: int|
        match least_bound(games[i].observations).spec_power() {
            Some(p) => p,
            None => 0,
        }
}

/// The sum of the powers of the least bounds of the records. There is none
/// if a record leaves a colour out in all its groups, or if the sum is more
/// than `usize::MAX`.
pub fn sum_of_powers(games: &[Game]) -> (r: Option<usize>)
    ensures
        r == if all_colours_seen(views(games@)) {
            checked_usize(sum_to(powers(views(games@)), games.len() as int))
        } else {
            None
        },
{
    let ghost all = views(games@);
    let ghost by_game = powers(all);
    let mut sum: usize = 0;
    let mut i: usize = 0;
    while i < games.len()
        invariant
            all == views(games@),
            by_game == powers(all),
            0 <= i <= games.len(),
            sum == sum_to(by_game, i as int),
            forall|k: int|
                0 <= k < i ==> least_bound((#[trigger] all[k]).observations).spec_power() is Some,
        decreases games.len() - i,
    {
        proof {
            lemma_sum_to_grows(by_game, i + 1, games.len() as int);
        }
        let least = min_possible(&games[i]);
        let next = match least.power() {
            Some(p) => sum.checked_add(p),
            None => None,
        };
        match next {
            Some(more) => {
                sum = more;
            },
            None => {
                return None;
            },
        }
        i += 1;
    }
    Some(sum)
}

} // verus!
