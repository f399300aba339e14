//! The header line of a shared game.

use vstd::prelude::*;
use crate::feedback::{parse_row, GuessStatus, LetterGuess};
use crate::text::{chars_of, has_char};
use crate::word::{WordError, WordErrorView};

verus! {

/// What the header of a shared game says: the day of the puzzle, and the
/// first row of feedback where the header carries one.
#[derive(Copy, Clone, Debug)]
pub struct Header {
    pub day: usize,
    pub first: Option<GuessStatus>,
}

/// A `Header` with its row as a sequence.
pub struct HeaderView {
    pub day: nat,
    pub first: Option<Seq<LetterGuess>>,
}

impl View for Header {
    type V = HeaderView;

    open spec fn view(&self) -> HeaderView {
        HeaderView {
            day: self.day as nat,
            first: match self.first {
                Some(row) => Some(row@),
                None => None,
            },
        }
    }
}

/// The position of the first `c` in `s`, or the length of `s` where it
/// holds none.
pub open spec fn first_index(s: Seq<char>, c: char) -> int
    decreases s.len(),
{
    if s.len() == 0 {
        0
    } else if s[0] == c {
        0
    } else {
        1 + first_index(s.drop_first(), c)
    }
}

/// What stands before the first space of `s`.
pub open spec fn head(s: Seq<char>) -> Seq<char> {
    s.take(first_index(s, ' '))
}

/// What stands after the first space of `s`, if it has one.
pub open spec fn tail(s: Seq<char>) -> Option<Seq<char>> {
    if first_index(s, ' ') < s.len() {
        Some(s.skip(first_index(s, ' ') + 1))
    } else {
        None
    }
}

/// The number that a run of decimal digits denotes.
pub open spec fn digits_value(s: Seq<char>) -> nat
    decreases s.len(),
{
    if s.len() == 0 {
        0
    } else {
        digits_value(s.drop_last()) * 10 + (s.last() as nat - '0' as nat) as nat
    }
}

/// Every character of `s` is a decimal digit.
pub open spec fn all_digits(s: Seq<char>) -> bool {
    forall|i: int| 0 <= i < s.len() ==> '0' <= #[trigger] s[i] && s[i] <= '9'
}

/// `s` without the `+` that it may start with.
pub open spec fn unsigned(s: Seq<char>) -> Seq<char> {
    if s.len() > 0 && s[0] == '+' {
        s.drop_first()
    } else {
        s
    }
}

/// The number that `s` denotes: one or more decimal digits, which a single
/// `+` may precede.
pub open spec fn decimal(s: Seq<char>) -> Option<nat> {
    let digits = unsigned(s);
    if digits.len() > 0 && all_digits(digits) {
        Some(digits_value(digits))
    } else {
        None
    }
}

/// The row that a piece of the header carries: the piece from its first
/// colon on, where it has a colon and that reads as a row.
pub open spec fn embedded_row(piece: Seq<char>) -> Option<Seq<LetterGuess>> {
    if piece.contains(':') {
        match parse_row(piece.skip(first_index(piece, ':'))) {
            Ok(row) => Some(row),
            Err(_) => None,
        }
    } else {
        None
    }
}

/// What a header line reads as. Its pieces are divided by single spaces:
/// the first has to be the word `Wordle`, the second the day, a number that
/// the machine can hold; the third, if there is one, may carry a row.
pub open spec fn parse_header(line: Seq<char>) -> Result<HeaderView, WordErrorView> {
    if head(line) != "Wordle"@ {
        Err(WordErrorView::NotWordle)
    } else {
        match tail(line) {
            None => Err(WordErrorView::NotWordle),
            Some(rest) => match decimal(head(rest)) {
                None => Err(WordErrorView::NotWordle),
                Some(day) => if day > usize::MAX {
                    Err(WordErrorView::NotWordle)
                } else {
                    Ok(
                        HeaderView {
                            day,
                            first: match tail(rest) {
                                None => None,
                                Some(more) => embedded_row(head(more)),
                            },
                        },
                    )
                },
            },
        }
    }
}

/// The result of reading a header, by its view.
pub open spec fn header_view(r: Result<Header, WordError>) -> Result<HeaderView, WordErrorView> {
    match r {
        Ok(header) => Ok(header@),
        Err(e) => Err(e@),
    }
}

/// Reading a header fails in one way only.
pub proof fn lemma_header_errors(line: Seq<char>)
    ensures
        parse_header(line) matches Err(e) ==> e is NotWordle,
{
}

/// Where the first `c` stands.
pub proof fn lemma_first_index(s: Seq<char>, c: char)
    ensures
        0 <= first_index(s, c) <= s.len(),
        first_index(s, c) < s.len() ==> s[first_index(s, c)] == c,
        forall|k: int| 0 <= k < first_index(s, c) ==> s[k] != c,
        first_index(s, c) < s.len() <==> s.contains(c),
    decreases s.len(),
{
    if s.len() > 0 && s[0] != c {
        let rest = s.drop_first();
        lemma_first_index(rest, c);
        assert forall|k: int| 0 <= k < first_index(s, c) implies s[k] != c by {
            if k > 0 {
                assert(s[k] == rest[k - 1]);
            }
        }
        if first_index(s, c) < s.len() {
            assert(s[first_index(s, c)] == rest[first_index(rest, c)]);
        }
        if s.contains(c) {
            let k = choose|k: int| 0 <= k < s.len() && s[k] == c;
            assert(rest[k - 1] == c);
        }
    } else if s.len() > 0 {
        assert(s.contains(c));
    }
}

/// The position of the first `c` in `chars`, or their number.
fn find_char(chars: &Vec<char>, c: char) -> (at: usize)
    ensures
        at == first_index(chars@, c),
        at <= chars.len(),
{
    let mut i: usize = 0;
    assert(chars@.skip(0) =~= chars@);
    while i < chars.len() && chars[i] != c
        invariant
            i <= chars.len(),
            first_index(chars@, c) == i + first_index(chars@.skip(i as int), c),
        decreases chars.len() - i,
    {
        assert(chars@.skip(i as int).drop_first() =~= chars@.skip(i + 1));
        i += 1;
    }
    i
}

/// The characters of `chars` from `from` up to `to`.
fn part(chars: &Vec<char>, from: usize, to: usize) -> (out: Vec<char>)
    requires
        from <= to <= chars.len(),
    ensures
        out@ == chars@.subrange(from as int, to as int),
{
    let mut out: Vec<char> = Vec::new();
    let mut i: usize = from;
    while i < to
        invariant
            from <= i <= to <= chars.len(),
            out@ == chars@.subrange(from as int, i as int),
        decreases to - i,
    {
        out.push(chars[i]);
        assert(chars@.subrange(from as int, i + 1) =~= chars@.subrange(from as int, i as int).push(
            chars@[i as int],
        ));
        i += 1;
    }
    out
}

/// Divides `chars` at their first space.
fn cut(chars: &Vec<char>) -> (r: (Vec<char>, Option<Vec<char>>))
    ensures
        r.0@ == head(chars@),
        match r.1 {
            Some(rest) => tail(chars@) == Some(rest@),
            None => tail(chars@) is None,
        },
{
    let at = find_char(chars, ' ');
    let first = part(chars, 0, at);
    assert(chars@.subrange(0, at as int) =~= chars@.take(at as int));
    if at < chars.len() {
        let rest = part(chars, at + 1, chars.len());
        assert(chars@.subrange(at + 1, chars.len() as int) =~= chars@.skip(at + 1));
        (first, Some(rest))
    } else {
        (first, None)
    }
}

/// Whether two lists hold the same characters.
fn same_chars(a: &Vec<char>, b: &Vec<char>) -> (r: bool)
    ensures
        r == (a@ == b@),
{
    if a.len() != b.len() {
        return false;
    }
    let mut i: usize = 0;
    while i < a.len()
        invariant
            i <= a.len(),
            a.len() == b.len(),
            forall|k: int| 0 <= k < i ==> a@[k] == b@[k],
        decreases a.len() - i,
    {
        if a[i] != b[i] {
            return false;
        }
        i += 1;
    }
    assert(a@ =~= b@);
    true
}

/// A longer run of digits denotes no smaller number.
proof fn lemma_digits_grow(s: Seq<char>, n: int)
    requires
        0 <= n <= s.len(),
    ensures
        digits_value(s.take(n)) <= digits_value(s),
    decreases s.len() - n,
{
    if n == s.len() {
        assert(s.take(n) =~= s);
    } else {
        lemma_digits_grow(s, n + 1);
        assert(s.take(n + 1).drop_last() =~= s.take(n));
    }
}

/// The number that `chars` denote, where they denote one that fits.
fn read_number(chars: &Vec<char>) -> (r: Option<usize>)
    ensures
        r == match decimal(chars@) {
            Some(n) => if n <= usize::MAX {
                Some(n as usize)
            } else {
                None
            },
            None => None,
        },
{
    let start: usize = if chars.len() > 0 && chars[0] == '+' {
        1
    } else {
        0
    };
    let ghost digits = chars@.skip(start as int);
    assert(digits =~= unsigned(chars@));
    if start == chars.len() {
        return None;
    }
    let mut value: usize = 0;
    let mut i: usize = start;
    assert(digits.take(0) =~= Seq::<char>::empty());
    while i < chars.len()
        invariant
            start <= i <= chars.len(),
            digits == chars@.skip(start as int),
            digits == unsigned(chars@),
            all_digits(digits.take(i - start)),
            value == digits_value(digits.take(i - start)),
        decreases chars.len() - i,
    {
        let c = chars[i];
        let ghost seen = digits.take(i - start);
        let ghost longer = digits.take(i - start + 1);
        assert(longer.drop_last() =~= seen);
        assert(longer.last() == c);
        if c < '0' || c > '9' {
            assert(digits[i - start] == c);
            return None;
        }
        let d: usize = (c as u32 - '0' as u32) as usize;
        if value > (usize::MAX - d) / 10 {
            proof {
                assert(digits_value(longer) == value * 10 + d);
                lemma_digits_grow(digits, i - start + 1);
            }
            return None;
        }
        value = value * 10 + d;
        assert forall|k: int| 0 <= k < longer.len() implies '0' <= #[trigger] longer[k]
            && longer[k] <= '9' by {
            if k < seen.len() {
                assert(seen[k] == longer[k]);
            }
        }
        i += 1;
    }
    assert(digits.take(chars.len() - start) =~= digits);
    Some(value)
}

impl Header {
    /// Reads the header line of a shared game.
    pub fn parse(line: &str) -> (r: Result<Header, WordError>)
        ensures
            header_view(r) == parse_header(line@),
    {
        let chars = chars_of(line);
        let (marker, after_marker) = cut(&chars);
        if !same_chars(&marker, &chars_of("Wordle")) {
            return Err(WordError::NotWordle);
        }
        let rest = match after_marker {
            None => {
                return Err(WordError::NotWordle);
            },
            Some(rest) => rest,
        };
        let (number, after_number) = cut(&rest);
        let day = match read_number(&number) {
            None => {
                return Err(WordError::NotWordle);
            },
            Some(day) => day,
        };
        let first = match after_number {
            None => None,
            Some(more) => {
                let (piece, _) = cut(&more);
                if has_char(&piece, ':') {
                    let at = find_char(&piece, ':');
                    let row = part(&piece, at, piece.len());
                    assert(piece@.subrange(at as int, piece.len() as int) =~= piece@.skip(at as int));
                    match GuessStatus::from_chars(row) {
                        Ok(row) => Some(row),
                        Err(_) => None,
                    }
                } else {
                    None
                }
            },
        };
        Ok(Header { day, first })
    }
}

} // verus!
