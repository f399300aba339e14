//! Per-letter outcomes and feedback rows, with their two written forms.

use vstd::prelude::*;
use crate::text::{
    chars_of, copy_chars, find_outside, first_outside, has_char, lemma_first_outside,
    lemma_replace_first_chars, replace_first, replace_name, string_of, Alphabet, BLACK, GREEN,
    YELLOW,
};
use crate::word::{WordError, WordErrorView};

verus! {

/// The outcome for one letter of a guess.
#[derive(Copy, Clone, Debug, PartialEq, Eq, Structural)]
pub enum LetterGuess {
    /// The letter stands at this position of the target.
    Correct,
    /// The letter stands elsewhere in the target.
    Misplaced,
    /// The target has no copy of the letter left for this position.
    NotUsed,
}

/// The outcomes for the five letters of a guess, in order.
#[derive(Copy, Clone, Debug, PartialEq, Eq)]
pub struct GuessStatus(pub [LetterGuess; 5]);

impl View for GuessStatus {
    type V = Seq<LetterGuess>;

    open spec fn view(&self) -> Seq<LetterGuess> {
        self.0@
    }
}

/// The outcome that a feedback symbol stands for.
pub open spec fn symbol_outcome(c: char) -> LetterGuess {
    if c == '=' || c == GREEN {
        LetterGuess::Correct
    } else if c == '+' || c == YELLOW {
        LetterGuess::Misplaced
    } else {
        LetterGuess::NotUsed
    }
}

/// The square that an outcome is written as.
pub open spec fn glyph(outcome: LetterGuess) -> char {
    match outcome {
        LetterGuess::Correct => GREEN,
        LetterGuess::Misplaced => YELLOW,
        LetterGuess::NotUsed => BLACK,
    }
}

/// Five outcomes, all of them `outcome`.
pub open spec fn all(outcome: LetterGuess) -> Seq<LetterGuess> {
    Seq::new(5, |i: int| outcome)
}

/// The row in which every letter is correct.
pub open spec fn solved() -> Seq<LetterGuess> {
    all(LetterGuess::Correct)
}

/// `text` with the squares that are written out by name turned into plain
/// symbols: up to five of each name, and only where `text` holds a colon.
pub open spec fn expand_names(text: Seq<char>) -> Seq<char> {
    if text.contains(':') {
        replace_first(
            replace_first(
                replace_first(text, ":black_large_square:"@, '-', 5),
                ":large_yellow_square:"@,
                '+',
                5,
            ),
            ":large_green_square:"@,
            '=',
            5,
        )
    } else {
        text
    }
}

/// What `text` reads as: after the names are expanded, the first character
/// that is no feedback symbol is an error, which carries that character and
/// `text` as it came in; then any length but five is an error, which
/// carries the number of symbols after the names are expanded; otherwise
/// each symbol gives its outcome.
pub open spec fn parse_row(text: Seq<char>) -> Result<Seq<LetterGuess>, WordErrorView> {
    let symbols = expand_names(text);
    match first_outside(symbols, Alphabet::Symbols) {
        Some(c) => Err(WordErrorView::Chars(text, c)),
        None => if symbols.len() != 5 {
            Err(WordErrorView::Length(symbols.len()))
        } else {
            Ok(symbols.map_values(|c: char| symbol_outcome(c)))
        },
    }
}

/// The written form of a row: one square for each outcome.
pub open spec fn render(row: Seq<LetterGuess>) -> Seq<char> {
    row.map_values(|o: LetterGuess| glyph(o))
}

/// The result of reading a row, by its view.
pub open spec fn row_view(r: Result<GuessStatus, WordError>) -> Result<
    Seq<LetterGuess>,
    WordErrorView,
> {
    match r {
        Ok(row) => Ok(row@),
        Err(e) => Err(e@),
    }
}

/// Reading back what `render` wrote gives the row that was written, for
/// every row of five outcomes.
pub proof fn lemma_render_round_trip(row: Seq<LetterGuess>)
    requires
        row.len() == 5,
    ensures
        parse_row(render(row)) == Ok::<Seq<LetterGuess>, WordErrorView>(row),
{
    let text = render(row);
    assert forall|i: int| 0 <= i < text.len() implies Alphabet::Symbols.holds(
        #[trigger] text[i],
    ) && text[i] != ':' by {
        assert(text[i] == glyph(row[i]));
    }
    assert(!text.contains(':'));
    lemma_first_outside(text, Alphabet::Symbols);
    assert(text.map_values(|c: char| symbol_outcome(c)) =~= row);
}

/// Reading a row fails only on a wrong character or a wrong length.
pub proof fn lemma_row_errors(text: Seq<char>)
    ensures
        parse_row(text) matches Err(e) ==> e is Chars || e is Length,
{
}

/// The error for a wrong character carries the text as it came in, and a
/// character of that text which is no feedback symbol.
pub proof fn lemma_wrong_character(text: Seq<char>)
    ensures
        parse_row(text) matches Err(WordErrorView::Chars(carried, c)) ==> carried == text
            && text.contains(c) && !Alphabet::Symbols.holds(c),
{
    let symbols = expand_names(text);
    lemma_first_outside(symbols, Alphabet::Symbols);
    if let Some(c) = first_outside(symbols, Alphabet::Symbols) {
        if text.contains(':') {
            let first = replace_first(text, ":black_large_square:"@, '-', 5);
            let second = replace_first(first, ":large_yellow_square:"@, '+', 5);
            lemma_replace_first_chars(second, ":large_green_square:"@, '=', 5, c);
            lemma_replace_first_chars(first, ":large_yellow_square:"@, '+', 5, c);
            lemma_replace_first_chars(text, ":black_large_square:"@, '-', 5, c);
        }
    }
}

fn outcome_of(c: char) -> (o: LetterGuess)
    ensures
        o == symbol_outcome(c),
{
    if c == '=' || c == GREEN {
        LetterGuess::Correct
    } else if c == '+' || c == YELLOW {
        LetterGuess::Misplaced
    } else {
        LetterGuess::NotUsed
    }
}

fn glyph_of(outcome: LetterGuess) -> (c: char)
    ensures
        c == glyph(outcome),
{
    match outcome {
        LetterGuess::Correct => GREEN,
        LetterGuess::Misplaced => YELLOW,
        LetterGuess::NotUsed => BLACK,
    }
}

/// `raw` with the squares that are written out by name turned into plain
/// symbols.
fn expand(raw: &Vec<char>) -> (symbols: Vec<char>)
    ensures
        symbols@ == expand_names(raw@),
{
    if has_char(raw, ':') {
        let black = chars_of(":black_large_square:");
        let yellow = chars_of(":large_yellow_square:");
        let green = chars_of(":large_green_square:");
        let first = replace_name(raw, &black, '-', 5);
        let second = replace_name(&first, &yellow, '+', 5);
        replace_name(&second, &green, '=', 5)
    } else {
        copy_chars(raw)
    }
}

impl GuessStatus {
    /// Reads a row from its plain form (`=`, `+`, `-`), from squares, or from
    /// squares written out by name.
    pub fn try_from(value: &str) -> (r: Result<GuessStatus, WordError>)
        ensures
            row_view(r) == parse_row(value@),
    {
        GuessStatus::from_chars(chars_of(value))
    }

    /// Reads a row from the characters of its written form.
    pub fn from_chars(raw: Vec<char>) -> (r: Result<GuessStatus, WordError>)
        ensures
            row_view(r) == parse_row(raw@),
    {
        let symbols = expand(&raw);
        match find_outside(&symbols, Alphabet::Symbols) {
            Some(x) => {
                return Err(WordError::Chars(string_of(&raw), x));
            },
            None => {},
        }
        if symbols.len() != 5 {
            return Err(WordError::Length(symbols.len()));
        }
        let mut row: [LetterGuess; 5] = [LetterGuess::NotUsed;5];
        let mut i: usize = 0;
        while i < 5
            invariant
                i <= 5,
                symbols.len() == 5,
                forall|k: int| 0 <= k < i ==> row@[k] == symbol_outcome(symbols@[k]),
            decreases 5 - i,
        {
            row[i] = outcome_of(symbols[i]);
            i += 1;
        }
        assert(row@ =~= symbols@.map_values(|c: char| symbol_outcome(c)));
        Ok(GuessStatus(row))
    }

    /// The row written as five squares.
    pub fn to_string(&self) -> (s: String)
        ensures
            s@ == render(self@),
    {
        let mut s = String::new();
        let mut i: usize = 0;
        while i < 5
            invariant
                i <= 5,
                s@ == render(self@).take(i as int),
            decreases 5 - i,
        {
            s.push(glyph_of(self.0[i]));
            assert(render(self@).take(i + 1) =~= render(self@).take(i as int).push(
                glyph(self@[i as int]),
            ));
            i += 1;
        }
        assert(render(self@).take(5) =~= render(self@));
        s
    }

    /// Whether two rows hold the same outcomes.
    pub fn same(&self, other: &GuessStatus) -> (r: bool)
        ensures
            r == (self@ == other@),
    {
        let mut i: usize = 0;
        while i < 5
            invariant
                i <= 5,
                forall|j: int| 0 <= j < i ==> self@[j] == other@[j],
            decreases 5 - i,
        {
            if self.0[i] != other.0[i] {
                return false;
            }
            i += 1;
        }
        assert(self@ =~= other@);
        true
    }

    /// Whether every letter is correct.
    pub fn is_solved(&self) -> (r: bool)
        ensures
            r == (self@ == solved()),
    {
        let mut i: usize = 0;
        while i < 5
            invariant
                i <= 5,
                forall|j: int| 0 <= j < i ==> self@[j] == LetterGuess::Correct,
            decreases 5 - i,
        {
            if self.0[i] != LetterGuess::Correct {
                assert(solved()[i as int] == LetterGuess::Correct);
                return false;
            }
            i += 1;
        }
        assert(self@ =~= solved());
        true
    }
}

} // verus!
