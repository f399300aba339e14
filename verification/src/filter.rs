//! The lookup for one guess: which words could be the target.

use vstd::prelude::*;
use crate::analysis::{lemma_survivors_of_both, survivors, surviving_targets};
use crate::corpus::Corpus;
use crate::feedback::GuessStatus;
use crate::order::{sort_words, sorted};
use crate::word::Word;

verus! {

/// The words that the lookup goes through: the answers, and with `extend`
/// the accepted words after them.
pub open spec fn candidates(corpus: Corpus, extend: bool) -> Seq<Word> {
    if extend {
        corpus.answers@ + corpus.accepted@
    } else {
        corpus.answers@
    }
}

/// Every candidate against which `word` earns `guess`, in dictionary order.
/// A word that stands more than once among the candidates stands as often
/// in the result.
pub fn filter_from_guess(corpus: &Corpus, word: Word, guess: &GuessStatus, extend: bool) -> (out:
    Vec<Word>)
    ensures
        sorted(out@),
        out@.to_multiset() == survivors(candidates(*corpus, extend), word, guess@).to_multiset(),
{
    let mut found = surviving_targets(&corpus.answers, word, guess);
    if extend {
        let mut more = surviving_targets(&corpus.accepted, word, guess);
        found.append(&mut more);
        proof {
            lemma_survivors_of_both(corpus.answers@, corpus.accepted@, word, guess@);
        }
    }
    sort_words(&found)
}

} // verus!
