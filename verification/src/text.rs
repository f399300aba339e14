//! Moving between strings and sequences of characters.

use vstd::prelude::*;
use vstd::string::group_string_axioms;

verus! {

/// Taken on trust from the documentation of std's `String::push`: the call
/// appends `c` to the string and leaves what it held in place.
pub assume_specification[ String::push ](s: &mut String, c: char)
    ensures
        final(s)@ == old(s)@.push(c),
;

/// The characters of `text`, in order.
pub fn chars_of(text: &str) -> (out: Vec<char>)
    ensures
        out@ == text@,
{
    broadcast use group_string_axioms;

    let mut out: Vec<char> = Vec::new();
    for c in it: text.chars()
        invariant
            it.seq() == text@,
            out@ == text@.take(it.index() as int),
    {
        out.push(c);
        assert(text@.take(it.index() + 1) =~= text@.take(it.index() as int).push(c));
    }
    assert(text@.take(text@.len() as int) =~= text@);
    out
}

/// The string that holds `chars`, in order.
pub fn string_of(chars: &Vec<char>) -> (out: String)
    ensures
        out@ == chars@,
{
    let mut out = String::new();
    let mut i: usize = 0;
    while i < chars.len()
        invariant
            i <= chars.len(),
            out@ == chars@.take(i as int),
        decreases chars.len() - i,
    {
        out.push(chars[i]);
        assert(chars@.take(i + 1) =~= chars@.take(i as int).push(chars@[i as int]));
        i += 1;
    }
    assert(chars@.take(chars.len() as int) =~= chars@);
    out
}

/// The two alphabets that input is held to.
#[derive(Copy, Clone, Debug, PartialEq, Eq, Structural)]
pub enum Alphabet {
    /// The lowercase letters `a` to `z`.
    Letters,
    /// The six feedback symbols: `=`, `+`, `-` and the green, yellow and
    /// black squares.
    Symbols,
}

/// The green square.
pub const GREEN: char = '\u{1F7E9}';

/// The yellow square.
pub const YELLOW: char = '\u{1F7E8}';

/// The black square.
pub const BLACK: char = '\u{2B1B}';

impl Alphabet {
    /// Whether `c` belongs to the alphabet.
    pub open spec fn holds(self, c: char) -> bool {
        match self {
            Alphabet::Letters => 'a' <= c && c <= 'z',
            Alphabet::Symbols => c == '=' || c == '+' || c == '-' || c == GREEN || c == YELLOW
                || c == BLACK,
        }
    }

    /// Whether `c` belongs to the alphabet.
    pub fn has(self, c: char) -> (r: bool)
        ensures
            r == self.holds(c),
    {
        match self {
            Alphabet::Letters => 'a' <= c && c <= 'z',
            Alphabet::Symbols => c == '=' || c == '+' || c == '-' || c == GREEN || c == YELLOW
                || c == BLACK,
        }
    }
}

/// The first character of `s` that is outside `alphabet`, if there is one.
pub open spec fn first_outside(s: Seq<char>, alphabet: Alphabet) -> Option<char>
    decreases s.len(),
{
    if s.len() == 0 {
        None
    } else if !alphabet.holds(s[0]) {
        Some(s[0])
    } else {
        first_outside(s.drop_first(), alphabet)
    }
}

/// Nothing is outside the alphabet exactly when every character is inside.
pub proof fn lemma_first_outside(s: Seq<char>, alphabet: Alphabet)
    ensures
        first_outside(s, alphabet) is None <==> forall|i: int|
            0 <= i < s.len() ==> alphabet.holds(#[trigger] s[i]),
        first_outside(s, alphabet) matches Some(c) ==> !alphabet.holds(c) && s.contains(c),
    decreases s.len(),
{
    if s.len() > 0 {
        let rest = s.drop_first();
        lemma_first_outside(rest, alphabet);
        if alphabet.holds(s[0]) {
            if first_outside(rest, alphabet) is None {
                assert forall|i: int| 0 <= i < s.len() implies alphabet.holds(
                    #[trigger] s[i],
                ) by {
                    if i > 0 {
                        assert(s[i] == rest[i - 1]);
                    }
                }
            } else {
                let c = first_outside(rest, alphabet)->0;
                let k = choose|k: int| 0 <= k < rest.len() && rest[k] == c;
                assert(s[k + 1] == c);
            }
        } else {
            assert(s[0] == s[0]);
        }
    }
}

/// The first character of `chars` that is outside `alphabet`, if there is one.
pub fn find_outside(chars: &Vec<char>, alphabet: Alphabet) -> (r: Option<char>)
    ensures
        r == first_outside(chars@, alphabet),
{
    let mut i: usize = 0;
    assert(chars@.skip(0) =~= chars@);
    while i < chars.len()
        invariant
            i <= chars.len(),
            first_outside(chars@, alphabet) == first_outside(chars@.skip(i as int), alphabet),
        decreases chars.len() - i,
    {
        if !alphabet.has(chars[i]) {
            return Some(chars[i]);
        }
        assert(chars@.skip(i as int).drop_first() =~= chars@.skip(i + 1));
        i += 1;
    }
    None
}

/// Whether `c` occurs in `chars`.
pub fn has_char(chars: &Vec<char>, c: char) -> (r: bool)
    ensures
        r == chars@.contains(c),
{
    let mut i: usize = 0;
    while i < chars.len()
        invariant
            i <= chars.len(),
            forall|k: int| 0 <= k < i ==> chars@[k] != c,
        decreases chars.len() - i,
    {
        if chars[i] == c {
            return true;
        }
        i += 1;
    }
    false
}

/// `text` with the first `limit` occurrences of `name` replaced by `glyph`.
/// Occurrences are found from the left and do not overlap; an empty `name`
/// occurs nowhere.
pub open spec fn replace_first(text: Seq<char>, name: Seq<char>, glyph: char, limit: nat) -> Seq<
    char,
>
    decreases text.len(),
{
    if limit == 0 || name.len() == 0 || text.len() < name.len() {
        text
    } else if text.subrange(0, name.len() as int) == name {
        seq![glyph] + replace_first(text.skip(name.len() as int), name, glyph, (limit - 1) as nat)
    } else {
        seq![text[0]] + replace_first(text.skip(1), name, glyph, limit)
    }
}

/// Replacing brings in no character but `glyph`: every other character of
/// the result stands in `text`.
pub proof fn lemma_replace_first_chars(
    text: Seq<char>,
    name: Seq<char>,
    glyph: char,
    limit: nat,
    c: char,
)
    requires
        replace_first(text, name, glyph, limit).contains(c),
        c != glyph,
    ensures
        text.contains(c),
    decreases text.len(),
{
    let out = replace_first(text, name, glyph, limit);
    let k = choose|k: int| 0 <= k < out.len() && out[k] == c;
    if limit == 0 || name.len() == 0 || text.len() < name.len() {
    } else if text.subrange(0, name.len() as int) == name {
        let rest = text.skip(name.len() as int);
        let later = replace_first(rest, name, glyph, (limit - 1) as nat);
        assert(later[k - 1] == c);
        lemma_replace_first_chars(rest, name, glyph, (limit - 1) as nat, c);
        let j = choose|j: int| 0 <= j < rest.len() && rest[j] == c;
        assert(text[j + name.len()] == c);
    } else if k == 0 {
        assert(text[0] == c);
    } else {
        let rest = text.skip(1);
        let later = replace_first(rest, name, glyph, limit);
        assert(later[k - 1] == c);
        lemma_replace_first_chars(rest, name, glyph, limit, c);
        let j = choose|j: int| 0 <= j < rest.len() && rest[j] == c;
        assert(text[j + 1] == c);
    }
}

/// A copy of `chars`.
pub fn copy_chars(chars: &Vec<char>) -> (out: Vec<char>)
    ensures
        out@ == chars@,
{
    let mut out: Vec<char> = Vec::new();
    let mut i: usize = 0;
    while i < chars.len()
        invariant
            i <= chars.len(),
            out@ == chars@.take(i as int),
        decreases chars.len() - i,
    {
        out.push(chars[i]);
        assert(chars@.take(i + 1) =~= chars@.take(i as int).push(chars@[i as int]));
        i += 1;
    }
    assert(chars@.take(chars.len() as int) =~= chars@);
    out
}

/// Whether `name` stands in `text` at position `at`.
fn stands_at(text: &Vec<char>, at: usize, name: &Vec<char>) -> (r: bool)
    requires
        at + name.len() <= text.len(),
    ensures
        r == (text@.subrange(at as int, at + name.len()) == name@),
{
    let mut k: usize = 0;
    while k < name.len()
        invariant
            k <= name.len(),
            at + name.len() <= text.len(),
            forall|j: int| 0 <= j < k ==> text@[at + j] == name@[j],
        decreases name.len() - k,
    {
        if text[at + k] != name[k] {
            assert(text@.subrange(at as int, at + name.len())[k as int] != name@[k as int]);
            return false;
        }
        k += 1;
    }
    assert(text@.subrange(at as int, at + name.len()) =~= name@);
    true
}

/// `text` with the first `limit` occurrences of `name` replaced by `glyph`.
pub fn replace_name(text: &Vec<char>, name: &Vec<char>, glyph: char, limit: usize) -> (out: Vec<
    char,
>)
    ensures
        out@ == replace_first(text@, name@, glyph, limit as nat),
{
    let mut out: Vec<char> = Vec::new();
    let mut i: usize = 0;
    let mut left: usize = limit;
    assert(text@.skip(0) =~= text@);
    assert(out@ + text@ =~= text@);
    while i < text.len()
        invariant
            i <= text.len(),
            out@ + replace_first(text@.skip(i as int), name@, glyph, left as nat) == replace_first(
                text@,
                name@,
                glyph,
                limit as nat,
            ),
        decreases text.len() - i,
    {
        let ghost rest = text@.skip(i as int);
        let ghost done = out@;
        if left > 0 && name.len() > 0 && name.len() <= text.len() - i && stands_at(text, i, name) {
            assert(rest.subrange(0, name.len() as int) =~= text@.subrange(
                i as int,
                i + name.len(),
            ));
            assert(rest.skip(name.len() as int) =~= text@.skip(i + name.len()));
            out.push(glyph);
            i += name.len();
            left -= 1;
            assert(out@ + replace_first(text@.skip(i as int), name@, glyph, left as nat) =~= done
                + replace_first(rest, name@, glyph, (left + 1) as nat));
        } else {
            assert(rest.skip(1) =~= text@.skip(i + 1));
            if name.len() <= text.len() - i {
                assert(rest.subrange(0, name.len() as int) =~= text@.subrange(
                    i as int,
                    i + name.len(),
                ));
            }
            out.push(text[i]);
            i += 1;
            assert(out@ + replace_first(text@.skip(i as int), name@, glyph, left as nat) =~= done
                + replace_first(rest, name@, glyph, left as nat));
        }
    }
    assert(out@ + Seq::<char>::empty() =~= out@);
    out
}

} // verus!
