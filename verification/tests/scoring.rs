use wordle::LetterGuess::{Correct, Misplaced, NotUsed};
use wordle::{Corpus, LetterGuess, Word, WordError, WordGuess};

fn corpus() -> Corpus {
    Corpus::new(
        &["cigar", "sissy", "humph", "heath", "panel", "labor", "skill", "those"],
        &["label", "added", "dread", "eerie", "elder", "geese", "speed"],
    )
    .unwrap()
}

fn outcomes(guess: &str, target: &str) -> Result<[LetterGuess; 5], WordError> {
    let corpus = corpus();
    let guess = Word::try_from(guess, &corpus)?;
    let target = Word::try_from(target, &corpus)?;
    Ok(WordGuess::guess(guess, target).status.0)
}

#[test]
fn guess_correct() -> Result<(), WordError> {
    let corpus = corpus();
    let guess = Word::try_from("cigar", &corpus)?;
    let target = Word::try_from("cigar", &corpus)?;
    let result = WordGuess::guess(guess, target);
    assert_eq!(result.status.0, [LetterGuess::Correct; 5]);
    Ok(())
}

#[test]
fn guess_incorrect() -> Result<(), WordError> {
    let corpus = corpus();
    let guess = Word::try_from("humph", &corpus)?;
    let target = Word::try_from("cigar", &corpus)?;
    let result = WordGuess::guess(guess, target);
    assert_eq!(result.status.0, [LetterGuess::NotUsed; 5]);
    Ok(())
}

#[test]
fn guess_one_correct() -> Result<(), WordError> {
    let corpus = corpus();
    let guess = Word::try_from("sissy", &corpus)?;
    let target = Word::try_from("cigar", &corpus)?;
    let result = WordGuess::guess(guess, target);
    let mut expected = [LetterGuess::NotUsed; 5];
    expected[1] = LetterGuess::Correct;
    assert_eq!(result.status.0, expected);
    Ok(())
}

#[test]
fn guess_one_misplaced() -> Result<(), WordError> {
    let corpus = corpus();
    let guess = Word::try_from("heath", &corpus)?;
    let target = Word::try_from("cigar", &corpus)?;
    let result = WordGuess::guess(guess, target);
    let mut expected = [LetterGuess::NotUsed; 5];
    expected[2] = LetterGuess::Misplaced;
    assert_eq!(result.status.0, expected);
    Ok(())
}

#[test]
fn guess_multi_guess_correct() -> Result<(), WordError> {
    let corpus = corpus();
    let guess = Word::try_from("skill", &corpus)?;
    let target = Word::try_from("panel", &corpus)?;
    let result = WordGuess::guess(guess, target);
    let mut expected = [LetterGuess::NotUsed; 5];
    expected[4] = LetterGuess::Correct;
    assert_eq!(result.status.0, expected);
    Ok(())
}

#[test]
fn guess_multi_guess_misplaced() -> Result<(), WordError> {
    let corpus = corpus();
    let guess = Word::try_from("skill", &corpus)?;
    let target = Word::try_from("labor", &corpus)?;
    let result = WordGuess::guess(guess, target);
    let mut expected = [LetterGuess::NotUsed; 5];
    expected[3] = LetterGuess::Misplaced;
    assert_eq!(result.status.0, expected);
    Ok(())
}

#[test]
fn guess_multi_target_correct() -> Result<(), WordError> {
    let corpus = corpus();
    let guess = Word::try_from("panel", &corpus)?;
    let target = Word::try_from("skill", &corpus)?;
    let result = WordGuess::guess(guess, target);
    let mut expected = [LetterGuess::NotUsed; 5];
    expected[4] = LetterGuess::Correct;
    assert_eq!(result.status.0, expected);
    Ok(())
}

#[test]
fn guess_multi_target_misplaced() -> Result<(), WordError> {
    let corpus = corpus();
    let guess = Word::try_from("labor", &corpus)?;
    let target = Word::try_from("skill", &corpus)?;
    let result = WordGuess::guess(guess, target);
    let mut expected = [LetterGuess::NotUsed; 5];
    expected[0] = LetterGuess::Misplaced;
    assert_eq!(result.status.0, expected);
    Ok(())
}

#[test]
fn guess_multi_correct_and_misplaced() -> Result<(), WordError> {
    let corpus = corpus();
    let guess = Word::try_from("label", &corpus)?;
    let target = Word::try_from("skill", &corpus)?;
    let result = WordGuess::guess(guess, target);
    let mut expected = [LetterGuess::NotUsed; 5];
    expected[0] = LetterGuess::Misplaced;
    expected[4] = LetterGuess::Correct;
    assert_eq!(result.status.0, expected);
    Ok(())
}

#[test]
fn guess_keeps_the_guessed_word() -> Result<(), WordError> {
    let corpus = corpus();
    let guess = Word::try_from("label", &corpus)?;
    let target = Word::try_from("skill", &corpus)?;
    assert_eq!(WordGuess::guess(guess, target).word, guess);
    Ok(())
}

#[test]
fn every_word_scored_against_itself_is_correct() -> Result<(), WordError> {
    let corpus = corpus();
    for word in corpus.all_words() {
        assert_eq!(WordGuess::guess(word, word).status.0, [LetterGuess::Correct; 5]);
    }
    Ok(())
}

#[test]
fn words_without_a_common_letter_score_not_used() -> Result<(), WordError> {
    assert_eq!(outcomes("humph", "cigar")?, [LetterGuess::NotUsed; 5]);
    assert_eq!(outcomes("cigar", "humph")?, [LetterGuess::NotUsed; 5]);
    assert_eq!(outcomes("sissy", "panel")?, [LetterGuess::NotUsed; 5]);
    Ok(())
}

#[test]
fn exact_match_is_preferred_over_an_earlier_misplaced_one() -> Result<(), WordError> {
    // The target has one `e`, which the last letter of the guess matches
    // exactly: the two earlier `e`s get nothing.
    assert_eq!(outcomes("geese", "those")?, [NotUsed, NotUsed, NotUsed, Correct, Correct]);
    assert_eq!(outcomes("added", "dread")?, [Misplaced, Misplaced, NotUsed, Misplaced, Correct]);
    assert_eq!(outcomes("dread", "added")?, [Misplaced, NotUsed, Misplaced, Misplaced, Correct]);
    Ok(())
}

#[test]
fn repeated_letters_are_credited_from_the_left() -> Result<(), WordError> {
    assert_eq!(outcomes("eerie", "elder")?, [Correct, Misplaced, Misplaced, NotUsed, NotUsed]);
    assert_eq!(outcomes("geese", "elder")?, [NotUsed, Misplaced, Misplaced, NotUsed, NotUsed]);
    assert_eq!(outcomes("speed", "geese")?, [Misplaced, NotUsed, Correct, Misplaced, NotUsed]);
    assert_eq!(outcomes("elder", "eerie")?, [Correct, NotUsed, NotUsed, Misplaced, Misplaced]);
    Ok(())
}

#[test]
fn no_letter_is_credited_more_often_than_the_target_holds_it() -> Result<(), WordError> {
    let corpus = corpus();
    let words = corpus.all_words();
    for guess in &words {
        for target in &words {
            let row = WordGuess::guess(*guess, *target).status.0;
            let shown = guess.to_string();
            let hidden = target.to_string();
            for letter in shown.chars() {
                let credited = shown
                    .chars()
                    .zip(row.iter())
                    .filter(|(c, o)| *c == letter && **o != LetterGuess::NotUsed)
                    .count();
                let held = hidden.chars().filter(|c| *c == letter).count();
                assert!(credited <= held);
            }
        }
    }
    Ok(())
}
