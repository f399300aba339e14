//! Five-letter words.

use vstd::prelude::*;
use crate::corpus::Corpus;
use crate::text::{chars_of, find_outside, first_outside, string_of, Alphabet};

verus! {

/// A word of exactly five lowercase ASCII letters.
#[derive(Copy, Clone, Debug, PartialEq, Eq, PartialOrd, Ord, Hash)]
pub struct Word([u8; 5]);

/// Every byte of `letters` is one of `a`..=`z`.
pub open spec fn all_lowercase(letters: Seq<u8>) -> bool {
    forall|i: int| 0 <= i < letters.len() ==> 0x61 <= #[trigger] letters[i] <= 0x7a
}

impl View for Word {
    type V = Seq<u8>;

    closed spec fn view(&self) -> Seq<u8> {
        self.0@
    }
}

/// The place of a word in dictionary order: its five letters read as the
/// digits of a number in base 256.
pub open spec fn rank(letters: Seq<u8>) -> int {
    letters[0] * 0x1_0000_0000 + letters[1] * 0x100_0000 + letters[2] * 0x1_0000 + letters[3]
        * 0x100 + letters[4]
}

/// The letters that a text of lowercase letters spells.
pub open spec fn letters_of(text: Seq<char>) -> Seq<u8> {
    text.map_values(|c: char| c as u8)
}

/// The text that letters are written as.
pub open spec fn spelling(letters: Seq<u8>) -> Seq<char> {
    letters.map_values(|b: u8| b as char)
}

/// What `text` spells: the first character that is no lowercase letter is
/// an error; then any length but five is an error.
pub open spec fn spell(text: Seq<char>) -> Result<Seq<u8>, WordErrorView> {
    match first_outside(text, Alphabet::Letters) {
        Some(c) => Err(WordErrorView::Chars(text, c)),
        None => if text.len() != 5 {
            Err(WordErrorView::Length(text.len()))
        } else {
            Ok(letters_of(text))
        },
    }
}

/// What `text` reads as against the word lists of `corpus`: it has to spell
/// a word, and one of the two lists has to hold that word.
pub open spec fn parse_word(text: Seq<char>, corpus: Corpus) -> Result<Seq<u8>, WordErrorView> {
    match spell(text) {
        Err(e) => Err(e),
        Ok(letters) => if corpus.knows(letters) {
            Ok(letters)
        } else {
            Err(WordErrorView::NotWord(text))
        },
    }
}

/// The result of reading a word, by its view.
pub open spec fn word_view(r: Result<Word, WordError>) -> Result<Seq<u8>, WordErrorView> {
    match r {
        Ok(word) => Ok(word@),
        Err(e) => Err(e@),
    }
}

/// Reading a word fails only on a wrong character, a wrong length or a
/// word that the lists do not hold.
pub proof fn lemma_word_errors(text: Seq<char>, corpus: Corpus)
    ensures
        parse_word(text, corpus) matches Err(e) ==> e is Chars || e is Length || e is NotWord,
{
}

/// Words with the same letters are the same word.
pub proof fn lemma_same_letters(a: Word, b: Word)
    requires
        a@ == b@,
    ensures
        a == b,
{
    assert(a.0 =~= b.0);
}

/// Words of the same rank have the same letters.
pub proof fn lemma_rank_injective(a: Seq<u8>, b: Seq<u8>)
    requires
        a.len() == 5,
        b.len() == 5,
        rank(a) == rank(b),
    ensures
        a == b,
{
    assert(a[0] == b[0]);
    assert(a[1] == b[1]);
    assert(a[2] == b[2]);
    assert(a[3] == b[3]);
    assert(a =~= b);
}

/// Whether `a` and `b` agree before position `i` and `a` has the smaller
/// letter there.
pub open spec fn smaller_at(a: Seq<u8>, b: Seq<u8>, i: int) -> bool {
    0 <= i < 5 && a[i] < b[i] && forall|j: int| 0 <= j < i ==> a[j] == b[j]
}

/// The rank orders words as a dictionary does: by the first letter in which
/// they differ.
pub proof fn lemma_rank_dictionary_order(a: Seq<u8>, b: Seq<u8>)
    requires
        a.len() == 5,
        b.len() == 5,
    ensures
        rank(a) < rank(b) <==> exists|i: int| smaller_at(a, b, i),
{
    if rank(a) < rank(b) {
        if a[0] != b[0] {
            assert(smaller_at(a, b, 0));
        } else if a[1] != b[1] {
            assert(smaller_at(a, b, 1));
        } else if a[2] != b[2] {
            assert(smaller_at(a, b, 2));
        } else if a[3] != b[3] {
            assert(smaller_at(a, b, 3));
        } else {
            assert(smaller_at(a, b, 4));
        }
    }
    if exists|i: int| smaller_at(a, b, i) {
        let i = choose|i: int| smaller_at(a, b, i);
        if i == 1 {
            assert(a[0] == b[0]);
        } else if i == 2 {
            assert(a[0] == b[0] && a[1] == b[1]);
        } else if i == 3 {
            assert(a[0] == b[0] && a[1] == b[1] && a[2] == b[2]);
        } else if i == 4 {
            assert(a[0] == b[0] && a[1] == b[1] && a[2] == b[2] && a[3] == b[3]);
        }
    }
}

impl Word {
    /// The validity of a word: five letters, each lowercase. Every word
    /// that executable code holds is valid.
    #[verifier::type_invariant]
    pub open spec fn wf(&self) -> bool {
        self@.len() == 5 && all_lowercase(self@)
    }

    /// The five letters.
    pub fn letters(&self) -> (l: [u8; 5])
        ensures
            l@ == self@,
            self.wf(),
    {
        proof {
            use_type_invariant(self);
        }
        self.0
    }

    /// The word that `text` spells, if it spells one.
    pub(crate) fn spell(text: &str) -> (r: Result<Word, WordError>)
        ensures
            word_view(r) == spell(text@),
    {
        let chars = chars_of(text);
        match find_outside(&chars, Alphabet::Letters) {
            Some(x) => {
                return Err(WordError::Chars(string_of(&chars), x));
            },
            None => {},
        }
        if chars.len() != 5 {
            return Err(WordError::Length(chars.len()));
        }
        proof {
            crate::text::lemma_first_outside(chars@, Alphabet::Letters);
        }
        let mut letters: [u8; 5] = [0x61;5];
        let mut i: usize = 0;
        while i < 5
            invariant
                i <= 5,
                chars.len() == 5,
                forall|k: int| 0 <= k < 5 ==> Alphabet::Letters.holds(#[trigger] chars@[k]),
                forall|k: int| 0 <= k < i ==> letters@[k] == chars@[k] as u8,
                forall|k: int| 0 <= k < 5 ==> 0x61 <= #[trigger] letters@[k] <= 0x7a,
            decreases 5 - i,
        {
            assert(Alphabet::Letters.holds(chars@[i as int]));
            letters[i] = chars[i] as u8;
            i += 1;
        }
        assert(letters@ =~= letters_of(chars@));
        Ok(Word(letters))
    }

    /// Reads a word: five lowercase letters that one of the word lists of
    /// `corpus` holds.
    pub fn try_from(value: &str, corpus: &Corpus) -> (r: Result<Word, WordError>)
        ensures
            word_view(r) == parse_word(value@, *corpus),
    {
        match Word::spell(value) {
            Err(e) => Err(e),
            Ok(word) => {
                if corpus.contains(&word) {
                    Ok(word)
                } else {
                    Err(WordError::NotWord(string_of(&chars_of(value))))
                }
            },
        }
    }

    /// The word written out.
    pub fn to_string(&self) -> (s: String)
        ensures
            s@ == spelling(self@),
    {
        proof {
            use_type_invariant(self);
        }
        let mut s = String::new();
        let mut i: usize = 0;
        while i < 5
            invariant
                i <= 5,
                self@.len() == 5,
                self@ == self.0@,
                s@ == spelling(self@).take(i as int),
            decreases 5 - i,
        {
            s.push(self.0[i] as char);
            assert(spelling(self@).take(i + 1) =~= spelling(self@).take(i as int).push(
                self@[i as int] as char,
            ));
            i += 1;
        }
        assert(spelling(self@).take(5) =~= spelling(self@));
        s
    }

    /// The place of the word in dictionary order.
    pub fn rank(&self) -> (r: u64)
        ensures
            r == rank(self@),
            self.wf(),
    {
        proof {
            use_type_invariant(self);
        }
        let l = self.0;
        (l[0] as u64) * 0x1_0000_0000 + (l[1] as u64) * 0x100_0000 + (l[2] as u64) * 0x1_0000 + (
        l[3] as u64) * 0x100 + (l[4] as u64)
    }

    /// Whether two words are the same.
    pub fn same(&self, other: &Word) -> (r: bool)
        ensures
            r == (*self == *other),
    {
        let a = self.rank();
        let b = other.rank();
        proof {
            if a == b {
                lemma_rank_injective(self@, other@);
                lemma_same_letters(*self, *other);
            }
        }
        a == b
    }
}

/// What went wrong when reading a word, a feedback row or a share header.
#[derive(Debug)]
pub enum WordError {
    /// The text holds a character outside the accepted alphabet; carries
    /// the text as it came in, and the first such character.
    Chars(String, char),
    /// The text does not have five symbols; carries the length found.
    Length(usize),
    /// The word is in neither word list.
    NotWord(String),
    /// The text is not the header of a game share.
    NotWordle,
    /// Reserved; no function of this crate returns it.
    Unknown,
}

/// What a `WordError` says, with its texts as sequences of characters.
pub enum WordErrorView {
    Chars(Seq<char>, char),
    Length(nat),
    NotWord(Seq<char>),
    NotWordle,
    Unknown,
}

impl View for WordError {
    type V = WordErrorView;

    open spec fn view(&self) -> WordErrorView {
        match self {
            WordError::Chars(text, c) => WordErrorView::Chars(text@, *c),
            WordError::Length(n) => WordErrorView::Length(*n as nat),
            WordError::NotWord(text) => WordErrorView::NotWord(text@),
            WordError::NotWordle => WordErrorView::NotWordle,
            WordError::Unknown => WordErrorView::Unknown,
        }
    }
}

} // verus!
