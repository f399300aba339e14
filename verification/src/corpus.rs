//! The two word lists.

use vstd::prelude::*;
use crate::order::{ascending, holds_both, word_set};
use crate::word::{spell, Word, WordError, WordErrorView};

verus! {

/// The word lists of the game: the answers, in the order of their days, and
/// the further words that are accepted as guesses.
#[derive(Clone, Debug)]
pub struct Corpus {
    pub answers: Vec<Word>,
    pub accepted: Vec<Word>,
}

/// The letters of each word of a list.
pub open spec fn letters_of_all(words: Seq<Word>) -> Seq<Seq<u8>> {
    words.map_values(|w: Word| w@)
}

/// The characters of each text of a list.
pub open spec fn texts_of(texts: Seq<&str>) -> Seq<Seq<char>> {
    texts.map_values(|t: &str| t@)
}

/// What a list of texts spells: the words, in order, or else the error of
/// the first text that spells none.
pub open spec fn spell_all(texts: Seq<Seq<char>>) -> Result<Seq<Seq<u8>>, WordErrorView>
    decreases texts.len(),
{
    if texts.len() == 0 {
        Ok(Seq::empty())
    } else {
        match spell_all(texts.drop_last()) {
            Err(e) => Err(e),
            Ok(words) => match spell(texts.last()) {
                Err(e) => Err(e),
                Ok(word) => Ok(words.push(word)),
            },
        }
    }
}

/// What two lists of texts load as: the answers are read first.
pub open spec fn load(answers: Seq<Seq<char>>, accepted: Seq<Seq<char>>) -> Result<
    (Seq<Seq<u8>>, Seq<Seq<u8>>),
    WordErrorView,
> {
    match spell_all(answers) {
        Err(e) => Err(e),
        Ok(first) => match spell_all(accepted) {
            Err(e) => Err(e),
            Ok(second) => Ok((first, second)),
        },
    }
}

/// The result of loading the lists, by its view.
pub open spec fn corpus_view(r: Result<Corpus, WordError>) -> Result<
    (Seq<Seq<u8>>, Seq<Seq<u8>>),
    WordErrorView,
> {
    match r {
        Ok(corpus) => Ok((letters_of_all(corpus.answers@), letters_of_all(corpus.accepted@))),
        Err(e) => Err(e@),
    }
}

/// The result of reading one list, by its view.
spec fn list_view(r: Result<Vec<Word>, WordError>) -> Result<Seq<Seq<u8>>, WordErrorView> {
    match r {
        Ok(words) => Ok(letters_of_all(words@)),
        Err(e) => Err(e@),
    }
}

fn read_list(texts: &[&str]) -> (r: Result<Vec<Word>, WordError>)
    ensures
        list_view(r) == spell_all(texts_of(texts@)),
{
    let mut words: Vec<Word> = Vec::new();
    let mut i: usize = 0;
    assert(texts_of(texts@).take(0) =~= Seq::<Seq<char>>::empty());
    assert(letters_of_all(words@) =~= Seq::<Seq<u8>>::empty());
    while i < texts.len()
        invariant
            i <= texts.len(),
            spell_all(texts_of(texts@).take(i as int)) == Ok::<Seq<Seq<u8>>, WordErrorView>(
                letters_of_all(words@),
            ),
        decreases texts.len() - i,
    {
        let ghost all = texts_of(texts@);
        assert(all.take(i + 1).drop_last() =~= all.take(i as int));
        assert(all.take(i + 1).last() == texts@[i as int]@);
        match Word::spell(texts[i]) {
            Err(e) => {
                proof {
                    lemma_spell_all_fails(all, i + 1);
                }
                return Err(e);
            },
            Ok(word) => {
                let ghost before = letters_of_all(words@);
                words.push(word);
                assert(letters_of_all(words@) =~= before.push(word@));
            },
        }
        i += 1;
    }
    assert(texts_of(texts@).take(texts.len() as int) =~= texts_of(texts@));
    Ok(words)
}

/// Once a prefix of a list fails to spell, the list fails with the same
/// error.
proof fn lemma_spell_all_fails(texts: Seq<Seq<char>>, n: int)
    requires
        0 <= n <= texts.len(),
        spell_all(texts.take(n)) is Err,
    ensures
        spell_all(texts) == spell_all(texts.take(n)),
    decreases texts.len(),
{
    if n == texts.len() {
        assert(texts.take(n) =~= texts);
    } else {
        assert(texts.drop_last().take(n) =~= texts.take(n));
        lemma_spell_all_fails(texts.drop_last(), n);
    }
}

impl Corpus {
    /// Whether one of the two lists holds a word of these letters.
    pub open spec fn knows(self, letters: Seq<u8>) -> bool {
        letters_of_all(self.answers@).contains(letters) || letters_of_all(self.accepted@).contains(
            letters,
        )
    }

    /// Loads the two lists from their texts, one word each.
    pub fn new(answers: &[&str], accepted: &[&str]) -> (r: Result<Corpus, WordError>)
        ensures
            corpus_view(r) == load(texts_of(answers@), texts_of(accepted@)),
    {
        match read_list(answers) {
            Err(e) => Err(e),
            Ok(first) => match read_list(accepted) {
                Err(e) => Err(e),
                Ok(second) => Ok(Corpus { answers: first, accepted: second }),
            },
        }
    }

    /// Whether one of the two lists holds `word`.
    pub fn contains(&self, word: &Word) -> (r: bool)
        ensures
            r == self.knows(word@),
    {
        holds(&self.answers, word) || holds(&self.accepted, word)
    }

    /// Every word of the two lists, in dictionary order, each once: the
    /// words that may be guessed.
    pub fn all_words(&self) -> (set: Vec<Word>)
        ensures
            ascending(set@),
            holds_both(set@, self.answers@, self.accepted@),
    {
        word_set(&self.answers, &self.accepted)
    }

    /// The words that may be the target before anything is known, in
    /// dictionary order, each once: the answers, and with `extend` the
    /// accepted words too.
    pub fn targets(&self, extend: bool) -> (set: Vec<Word>)
        ensures
            ascending(set@),
            holds_both(
                set@,
                self.answers@,
                if extend {
                    self.accepted@
                } else {
                    Seq::empty()
                },
            ),
    {
        if extend {
            word_set(&self.answers, &self.accepted)
        } else {
            let none: Vec<Word> = Vec::new();
            word_set(&self.answers, &none)
        }
    }

    /// The answer of the given day, if the list reaches that far.
    pub fn answer(&self, day: usize) -> (r: Option<Word>)
        ensures
            r == if day < self.answers@.len() {
                Some(self.answers@[day as int])
            } else {
                None
            },
    {
        if day < self.answers.len() {
            Some(self.answers[day])
        } else {
            None
        }
    }
}

/// Whether `words` holds `word`.
pub fn holds(words: &Vec<Word>, word: &Word) -> (r: bool)
    ensures
        r == words@.contains(*word),
        r == letters_of_all(words@).contains(word@),
{
    let mut i: usize = 0;
    while i < words.len()
        invariant
            i <= words.len(),
            forall|k: int| 0 <= k < i ==> words@[k] != *word,
        decreases words.len() - i,
    {
        if words[i].same(word) {
            assert(letters_of_all(words@)[i as int] == word@);
            return true;
        }
        i += 1;
    }
    proof {
        if letters_of_all(words@).contains(word@) {
            let k = choose|k: int|
                0 <= k < letters_of_all(words@).len() && letters_of_all(words@)[k] == word@;
            crate::word::lemma_same_letters(words@[k], *word);
        }
    }
    false
}

} // verus!
