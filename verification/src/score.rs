//! The scorer: the feedback that a guess earns against a target.

use vstd::prelude::*;
use crate::feedback::{all, GuessStatus, LetterGuess};
use crate::word::Word;

verus! {

/// How many positions below `n` hold the letter `c` in `target` without
/// being matched exactly by `guess`: the copies of `c` that are left over
/// for misplaced letters.
pub open spec fn spare(guess: Seq<u8>, target: Seq<u8>, c: u8, n: int) -> int
    decreases n,
{
    if n <= 0 {
        0
    } else {
        spare(guess, target, c, n - 1) + if target[n - 1] == c && guess[n - 1] != c {
            1int
        } else {
            0int
        }
    }
}

/// How many positions below `n` hold the letter `c` in `guess` without
/// matching `target` exactly: the earlier claims on the spare copies of `c`.
pub open spec fn claims(guess: Seq<u8>, target: Seq<u8>, c: u8, n: int) -> int
    decreases n,
{
    if n <= 0 {
        0
    } else {
        claims(guess, target, c, n - 1) + if guess[n - 1] == c && target[n - 1] != c {
            1int
        } else {
            0int
        }
    }
}

/// The outcome at position `i`: an exact match is `Correct`; otherwise the
/// letter is `Misplaced` while the target still has a spare copy of it that
/// no earlier position of the guess has claimed, and `NotUsed` after that.
pub open spec fn outcome(guess: Seq<u8>, target: Seq<u8>, i: int) -> LetterGuess {
    if guess[i] == target[i] {
        LetterGuess::Correct
    } else if claims(guess, target, guess[i], i) < spare(
        guess,
        target,
        guess[i],
        target.len() as int,
    ) {
        LetterGuess::Misplaced
    } else {
        LetterGuess::NotUsed
    }
}

/// The feedback for `guess` against `target`.
pub open spec fn score(guess: Seq<u8>, target: Seq<u8>) -> Seq<LetterGuess> {
    Seq::new(guess.len(), |i: int| outcome(guess, target, i))
}

/// Whether some letter stands in both words.
pub open spec fn share_letter(guess: Seq<u8>, target: Seq<u8>) -> bool {
    exists|i: int, j: int| 0 <= i < guess.len() && 0 <= j < target.len() && guess[i] == target[j]
}

/// How many positions below `n` earn `Correct` or `Misplaced` for the
/// letter `c`.
pub open spec fn credited(guess: Seq<u8>, target: Seq<u8>, c: u8, n: int) -> int
    decreases n,
{
    if n <= 0 {
        0
    } else {
        credited(guess, target, c, n - 1) + if guess[n - 1] == c && outcome(guess, target, n - 1)
            != LetterGuess::NotUsed {
            1int
        } else {
            0int
        }
    }
}

/// How many positions below `n` of `s` hold `c`.
pub open spec fn copies(s: Seq<u8>, c: u8, n: int) -> int
    decreases n,
{
    if n <= 0 {
        0
    } else {
        copies(s, c, n - 1) + if s[n - 1] == c {
            1int
        } else {
            0int
        }
    }
}

/// A word scored against itself is correct in every letter.
pub proof fn lemma_score_self(word: Seq<u8>)
    requires
        word.len() == 5,
    ensures
        score(word, word) == all(LetterGuess::Correct),
{
    assert(score(word, word) =~= all(LetterGuess::Correct));
}

/// No letter that the target lacks has a spare copy in it.
proof fn lemma_absent_letter(guess: Seq<u8>, target: Seq<u8>, c: u8, n: int)
    requires
        0 <= n <= target.len(),
        forall|j: int| 0 <= j < target.len() ==> target[j] != c,
    ensures
        spare(guess, target, c, n) == 0,
    decreases n,
{
    if n > 0 {
        lemma_absent_letter(guess, target, c, n - 1);
    }
}

/// A guess that shares no letter with the target is not used in any
/// letter.
pub proof fn lemma_score_disjoint(guess: Seq<u8>, target: Seq<u8>)
    requires
        guess.len() == 5,
        target.len() == 5,
        !share_letter(guess, target),
    ensures
        score(guess, target) == all(LetterGuess::NotUsed),
{
    assert forall|i: int| 0 <= i < 5 implies outcome(guess, target, i)
        == LetterGuess::NotUsed by {
        assert forall|j: int| 0 <= j < target.len() implies target[j] != guess[i] by {
            if target[j] == guess[i] {
                assert(0 <= i < guess.len() && 0 <= j < target.len() && guess[i] == target[j]);
            }
        }
        lemma_absent_letter(guess, target, guess[i], 5);
        lemma_spare_nonnegative(guess, target, guess[i], i);
    }
    assert(score(guess, target) =~= all(LetterGuess::NotUsed));
}

/// Up to any position, a letter is credited for its exact matches and for
/// as many of its other places as the target has spare copies.
proof fn lemma_credited(guess: Seq<u8>, target: Seq<u8>, c: u8, n: int)
    requires
        guess.len() == 5,
        target.len() == 5,
        0 <= n <= 5,
    ensures
        credited(guess, target, c, n) == copies(target, c, n) - spare(guess, target, c, n) + if claims(
            guess,
            target,
            c,
            n,
        ) < spare(guess, target, c, 5) {
            claims(guess, target, c, n)
        } else {
            spare(guess, target, c, 5)
        },
    decreases n,
{
    lemma_spare_nonnegative(guess, target, c, 5);
    lemma_spare_nonnegative(guess, target, c, n);
    if n > 0 {
        lemma_credited(guess, target, c, n - 1);
        lemma_spare_nonnegative(guess, target, c, n - 1);
    }
}

/// No letter is credited more often than the target holds it: the
/// positions of the guess that are `Correct` or `Misplaced` for a letter
/// are no more than the copies of that letter in the target.
pub proof fn lemma_letter_budget(guess: Seq<u8>, target: Seq<u8>, c: u8)
    requires
        guess.len() == 5,
        target.len() == 5,
    ensures
        credited(guess, target, c, 5) <= copies(target, c, 5),
{
    lemma_credited(guess, target, c, 5);
    lemma_spare_nonnegative(guess, target, c, 5);
}

proof fn lemma_copies_none(s: Seq<u8>, c: u8, n: int)
    requires
        0 <= n <= s.len(),
    ensures
        0 <= copies(s, c, n),
        copies(s, c, n) == 0 <==> forall|k: int| 0 <= k < n ==> s[k] != c,
    decreases n,
{
    if n > 0 {
        lemma_copies_none(s, c, n - 1);
    }
}

proof fn lemma_copies_consume(s: Seq<u8>, k: int, c: u8, n: int)
    requires
        0 <= n <= s.len(),
        0 <= k < s.len(),
        c != 0,
    ensures
        copies(s.update(k, 0), c, n) == copies(s, c, n) - if k < n && s[k] == c {
            1int
        } else {
            0int
        },
    decreases n,
{
    if n > 0 {
        lemma_copies_consume(s, k, c, n - 1);
    }
}

proof fn lemma_spare_nonnegative(guess: Seq<u8>, target: Seq<u8>, c: u8, n: int)
    ensures
        0 <= spare(guess, target, c, n),
        0 <= claims(guess, target, c, n),
    decreases n,
{
    if n > 0 {
        lemma_spare_nonnegative(guess, target, c, n - 1);
    }
}

/// After the exact matches are struck out of the target, what is left of
/// each letter is its spare count.
proof fn lemma_struck_out(guess: Seq<u8>, target: Seq<u8>, left: Seq<u8>, c: u8, n: int)
    requires
        0 <= n <= target.len(),
        target.len() == guess.len(),
        left.len() == target.len(),
        c != 0,
        forall|k: int|
            0 <= k < target.len() ==> left[k] == if guess[k] == target[k] {
                0u8
            } else {
                target[k]
            },
    ensures
        copies(left, c, n) == spare(guess, target, c, n),
    decreases n,
{
    if n > 0 {
        lemma_struck_out(guess, target, left, c, n - 1);
    }
}

/// A guessed word with the feedback it earned against some target.
#[derive(Copy, Clone, Debug, PartialEq, Eq)]
pub struct WordGuess {
    pub word: Word,
    pub status: GuessStatus,
}

impl WordGuess {
    /// Scores `guess` against `target`.
    ///
    /// Exact matches are marked first and use up their letter of the target;
    /// the remaining letters of the guess then claim, from left to right, the
    /// copies of their letter that the target has left.
    pub fn guess(guess: Word, target: Word) -> (r: WordGuess)
        ensures
            r.word == guess,
            r.status@ == score(guess@, target@),
    {
        let letters = guess.letters();
        let mut available: [u8; 5] = target.letters();
        let mut result: [LetterGuess; 5] = [LetterGuess::NotUsed;5];
        let mut i: usize = 0;
        while i < 5
            invariant
                i <= 5,
                letters@ == guess@,
                target@.len() == 5,
                forall|k: int|
                    0 <= k < 5 ==> available@[k] == if k < i && guess@[k] == target@[k] {
                        0u8
                    } else {
                        target@[k]
                    },
                forall|k: int|
                    0 <= k < 5 ==> result@[k] == if k < i && guess@[k] == target@[k] {
                        LetterGuess::Correct
                    } else {
                        LetterGuess::NotUsed
                    },
            decreases 5 - i,
        {
            if available[i] == letters[i] {
                available[i] = 0;
                result[i] = LetterGuess::Correct;
            }
            i += 1;
        }
        proof {
            assert forall|c: u8| c != 0 implies #[trigger] copies(available@, c, 5) == spare(
                guess@,
                target@,
                c,
                5,
            ) && spare(guess@, target@, c, 5) >= 0 by {
                lemma_struck_out(guess@, target@, available@, c, 5);
                lemma_spare_nonnegative(guess@, target@, c, 5);
            }
        }
        let mut i: usize = 0;
        while i < 5
            invariant
                i <= 5,
                letters@ == guess@,
                guess.wf(),
                target.wf(),
                forall|c: u8|
                    c != 0 ==> #[trigger] copies(available@, c, 5) == if spare(
                        guess@,
                        target@,
                        c,
                        5,
                    ) > claims(guess@, target@, c, i as int) {
                        spare(guess@, target@, c, 5) - claims(guess@, target@, c, i as int)
                    } else {
                        0
                    },
                forall|k: int| 0 <= k < i ==> result@[k] == outcome(guess@, target@, k),
                forall|k: int|
                    i <= k < 5 ==> result@[k] == if guess@[k] == target@[k] {
                        LetterGuess::Correct
                    } else {
                        LetterGuess::NotUsed
                    },
            decreases 5 - i,
        {
            let g = letters[i];
            let ghost before = available@;
            let ghost marks = result@;
            if result[i] != LetterGuess::Correct {
                let mut j: usize = 0;
                let mut found = false;
                while j < 5 && !found
                    invariant
                        j <= 5,
                        i < 5,
                        guess@.len() == 5,
                        g == guess@[i as int],
                        g != 0,
                        !found ==> available@ == before,
                        !found ==> forall|k: int| 0 <= k < j ==> before[k] != g,
                        found ==> 0 < j && before[j - 1] == g && available@ == before.update(
                            j - 1,
                            0,
                        ),
                        found ==> result@ == marks.update(i as int, LetterGuess::Misplaced),
                        !found ==> result@ == marks,
                    decreases 5 - j + if found { 0int } else { 1int },
                {
                    if available[j] == g {
                        available[j] = 0;
                        result[i] = LetterGuess::Misplaced;
                        found = true;
                    }
                    j += 1;
                }
                proof {
                    lemma_copies_none(before, g, 5);
                    lemma_spare_nonnegative(guess@, target@, g, 5);
                    assert forall|c: u8| c != 0 implies #[trigger] copies(available@, c, 5)
                        == if spare(guess@, target@, c, 5) > claims(guess@, target@, c, i + 1) {
                        spare(guess@, target@, c, 5) - claims(guess@, target@, c, i + 1)
                    } else {
                        0
                    } by {
                        if found {
                            lemma_copies_consume(before, j - 1, c, 5);
                        }
                    }
                }
            }
            i += 1;
        }
        assert(result@ =~= score(guess@, target@));
        WordGuess { word: guess, status: GuessStatus(result) }
    }
}

} // verus!
