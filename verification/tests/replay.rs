use wordle::LetterGuess::{Correct, Misplaced, NotUsed};
use wordle::{
    analyse, analyse_round, filter_from_guess, summarise, ChainTargets, Corpus, GuessStatus,
    Header, RowAnalysis, Word, WordError,
};

fn tiny() -> Corpus {
    Corpus::new(
        &["cigar", "rebut", "sissy", "humph", "awake", "blush", "focal", "evade", "naval", "serve"],
        &["label", "skill", "naval"],
    )
    .unwrap()
}

fn texts(words: &[Word]) -> Vec<String> {
    words.iter().map(|w| w.to_string()).collect()
}

fn chains(row: &RowAnalysis) -> Vec<(Vec<String>, Vec<String>)> {
    row.possible_targets.iter().map(|e| (texts(&e.chain), texts(&e.targets))).collect()
}

fn pair(chain: &[&str], targets: &[&str]) -> (Vec<String>, Vec<String>) {
    (
        chain.iter().map(|w| w.to_string()).collect(),
        targets.iter().map(|w| w.to_string()).collect(),
    )
}

fn replay(corpus: &Corpus, day: usize, lines: &[&str], extend: bool) -> Vec<RowAnalysis> {
    let target = corpus.answer(day).unwrap();
    analyse(&corpus.all_words(), corpus.targets(extend), target, None, lines).unwrap()
}

#[test]
fn header_with_wrong_marker() {
    assert!(matches!(Header::parse("Wordel 232"), Err(WordError::NotWordle)));
    assert!(matches!(Header::parse("wordle 232"), Err(WordError::NotWordle)));
    assert!(matches!(Header::parse(" Wordle 232"), Err(WordError::NotWordle)));
    assert!(matches!(Header::parse("Wordle232"), Err(WordError::NotWordle)));
    assert!(matches!(Header::parse(""), Err(WordError::NotWordle)));
}

#[test]
fn header_without_a_day() {
    assert!(matches!(Header::parse("Wordle"), Err(WordError::NotWordle)));
    assert!(matches!(Header::parse("Wordle "), Err(WordError::NotWordle)));
    assert!(matches!(Header::parse("Wordle abc"), Err(WordError::NotWordle)));
    assert!(matches!(Header::parse("Wordle  232"), Err(WordError::NotWordle)));
    assert!(matches!(Header::parse("Wordle 23x"), Err(WordError::NotWordle)));
    assert!(matches!(Header::parse("Wordle -1"), Err(WordError::NotWordle)));
    assert!(matches!(Header::parse("Wordle +"), Err(WordError::NotWordle)));
    assert!(matches!(Header::parse("Wordle ++1"), Err(WordError::NotWordle)));
    assert!(matches!(Header::parse("Wordle 2\u{661}"), Err(WordError::NotWordle)));
}

#[test]
fn header_with_a_day_that_the_machine_cannot_hold() {
    assert!(matches!(
        Header::parse("Wordle 340282366920938463463374607431768211456"),
        Err(WordError::NotWordle)
    ));
    let most = Header::parse(&format!("Wordle {}", usize::MAX)).unwrap();
    assert_eq!(most.day, usize::MAX);
    assert!(matches!(
        Header::parse(&format!("Wordle {}0", usize::MAX)),
        Err(WordError::NotWordle)
    ));
}

#[test]
fn header_with_a_day() {
    let header = Header::parse("Wordle 232").unwrap();
    assert_eq!(header.day, 232);
    assert!(header.first.is_none());
    assert_eq!(Header::parse("Wordle 0").unwrap().day, 0);
    assert_eq!(Header::parse("Wordle 007").unwrap().day, 7);
    assert_eq!(Header::parse("Wordle +12").unwrap().day, 12);
    let header = Header::parse("Wordle 232 6/6").unwrap();
    assert_eq!(header.day, 232);
    assert!(header.first.is_none());
    assert!(Header::parse("Wordle 232 ").unwrap().first.is_none());
}

#[test]
fn header_that_carries_the_first_row() {
    let header = Header::parse(
        "Wordle 232 6/6:black_large_square::large_yellow_square::large_green_square:\
         :black_large_square::black_large_square:",
    )
    .unwrap();
    assert_eq!(header.day, 232);
    assert_eq!(header.first.unwrap().0, [NotUsed, Misplaced, Correct, NotUsed, NotUsed]);
    // Only the third piece is looked at, and a row that does not read is
    // passed over.
    let header = Header::parse("Wordle 5 3/6:large_green_square: :black_large_square:").unwrap();
    assert_eq!(header.day, 5);
    assert!(header.first.is_none());
    let header = Header::parse("Wordle 5 x:large_green_square:+-+= later").unwrap();
    assert_eq!(header.first.unwrap().0, [Correct, Misplaced, NotUsed, Misplaced, Correct]);
    // The row starts at the colon, which itself is no symbol.
    assert!(Header::parse("Wordle 5 x:=+-+=").unwrap().first.is_none());
}

#[test]
fn one_round_from_the_seed() {
    let corpus = tiny();
    let rows = replay(&corpus, 0, &["-----"], false);
    assert_eq!(rows.len(), 1);
    assert_eq!(rows[0].guess.0, [NotUsed; 5]);
    assert_eq!(texts(&rows[0].possible_guesses), ["blush", "humph"]);
    assert_eq!(
        chains(&rows[0]),
        [
            pair(&["blush"], &["awake", "cigar", "evade"]),
            pair(&["humph"], &["awake", "cigar", "evade", "focal", "naval", "serve", "sissy"]),
        ]
    );
}

#[test]
fn accepted_words_are_targets_only_when_asked_for() {
    let corpus = tiny();
    let rows = replay(&corpus, 0, &["-----"], true);
    assert_eq!(texts(&rows[0].possible_guesses), ["blush", "humph"]);
    assert_eq!(
        chains(&rows[0]),
        [
            pair(&["blush"], &["awake", "cigar", "evade"]),
            pair(
                &["humph"],
                &[
                    "awake", "cigar", "evade", "focal", "label", "naval", "serve", "sissy",
                    "skill"
                ]
            ),
        ]
    );
}

#[test]
fn chains_grow_by_one_guess_a_round() {
    let corpus = tiny();
    let rows = replay(&corpus, 0, &["+----", "-=---", "====="], false);
    assert_eq!(rows.len(), 3);
    assert_eq!(texts(&rows[0].possible_guesses), ["awake", "rebut"]);
    assert_eq!(
        chains(&rows[0]),
        [pair(&["awake"], &["cigar", "focal"]), pair(&["rebut"], &["cigar"])]
    );
    assert_eq!(texts(&rows[1].possible_guesses), ["sissy"]);
    assert_eq!(
        chains(&rows[1]),
        [pair(&["awake", "sissy"], &["cigar"]), pair(&["rebut", "sissy"], &["cigar"])]
    );
    assert_eq!(texts(&rows[2].possible_guesses), ["cigar"]);
    assert_eq!(
        chains(&rows[2]),
        [
            pair(&["awake", "sissy", "cigar"], &["cigar"]),
            pair(&["rebut", "sissy", "cigar"], &["cigar"]),
        ]
    );
}

#[test]
fn possible_targets_only_shrink() {
    let corpus = tiny();
    let rows = replay(&corpus, 0, &["+----", "-=---", "====="], true);
    for k in 1..rows.len() {
        for entry in &rows[k].possible_targets {
            let parent = rows[k - 1]
                .possible_targets
                .iter()
                .find(|p| p.chain[..] == entry.chain[..k])
                .unwrap();
            assert_eq!(entry.chain.len(), k + 1);
            assert!(entry.targets.iter().all(|t| parent.targets.contains(t)));
        }
    }
}

#[test]
fn analysis_stops_at_the_all_correct_round() {
    let corpus = tiny();
    let rows = replay(&corpus, 0, &["+----", "=====", "-----", "not a row"], false);
    assert_eq!(rows.len(), 2);
    assert!(rows[1].guess.is_solved());
    assert_eq!(texts(&rows[1].possible_guesses), ["cigar"]);
    let row = GuessStatus([Correct; 5]);
    let target = corpus.answer(0).unwrap();
    let rows =
        analyse(&corpus.all_words(), corpus.targets(false), target, Some(row), &["-----"]).unwrap();
    assert_eq!(rows.len(), 1);
    assert_eq!(chains(&rows[0]), [pair(&["cigar"], &["cigar"])]);
}

#[test]
fn analysis_fails_on_the_first_line_that_is_no_row() {
    let corpus = tiny();
    let target = corpus.answer(0).unwrap();
    let words = corpus.all_words();
    let result = analyse(&words, corpus.targets(false), target, None, &["+----", "-=--", "?"]);
    assert!(matches!(result, Err(WordError::Length(4))));
    let result = analyse(&words, corpus.targets(false), target, None, &["+---?", "-=--"]);
    assert!(matches!(result, Err(WordError::Chars(text, '?')) if text == "+---?"));
    let line = ":large_green_square:x";
    let result = analyse(&words, corpus.targets(false), target, None, &["+----", line]);
    assert!(matches!(result, Err(WordError::Chars(text, 'x')) if text == line));
}

#[test]
fn empty_lines_are_passed_over() {
    let corpus = tiny();
    let rows = replay(&corpus, 0, &["", "+----", "", "", "-=---", ""], false);
    assert_eq!(rows.len(), 2);
    assert_eq!(chains(&rows[1]).len(), 2);
    assert!(replay(&corpus, 0, &[], false).is_empty());
    assert!(replay(&corpus, 0, &["", ""], false).is_empty());
}

#[test]
fn the_row_of_the_header_comes_first() {
    let corpus = tiny();
    let target = corpus.answer(0).unwrap();
    let first = GuessStatus([Misplaced, NotUsed, NotUsed, NotUsed, NotUsed]);
    let rows =
        analyse(&corpus.all_words(), corpus.targets(false), target, Some(first), &["-=---"])
            .unwrap();
    assert_eq!(rows.len(), 2);
    assert_eq!(texts(&rows[0].possible_guesses), ["awake", "rebut"]);
    assert_eq!(
        chains(&rows[1]),
        [pair(&["awake", "sissy"], &["cigar"]), pair(&["rebut", "sissy"], &["cigar"])]
    );
}

#[test]
fn a_round_that_no_word_explains_leaves_no_chain() {
    let corpus = tiny();
    let rows = replay(&corpus, 0, &["+++++", "-----"], false);
    assert_eq!(rows.len(), 2);
    assert!(rows[0].possible_guesses.is_empty() && rows[0].possible_targets.is_empty());
    assert_eq!(texts(&rows[1].possible_guesses), ["blush", "humph"]);
    assert!(rows[1].possible_targets.is_empty());
    assert!(summarise(&rows[0]).is_none());
}

#[test]
fn one_round_at_a_time() {
    let corpus = tiny();
    let words = corpus.all_words();
    let target = Word::try_from("cigar", &corpus).unwrap();
    let label = Word::try_from("label", &corpus).unwrap();
    let prev = vec![
        ChainTargets { chain: vec![label], targets: corpus.targets(true) },
        ChainTargets { chain: vec![target], targets: vec![target, label] },
    ];
    let observed = GuessStatus([NotUsed, Correct, NotUsed, NotUsed, NotUsed]);
    let row = analyse_round(&prev, &words, target, observed);
    assert_eq!(row.guess, observed);
    assert_eq!(texts(&row.possible_guesses), ["sissy"]);
    assert_eq!(
        chains(&row),
        [pair(&["label", "sissy"], &["cigar"]), pair(&["cigar", "sissy"], &["cigar"])]
    );
}

#[test]
fn figures_of_a_round() {
    let corpus = tiny();
    let rows = replay(&corpus, 0, &["-----"], false);
    let summary = summarise(&rows[0]).unwrap();
    assert_eq!(summary.guesses, 2);
    assert_eq!(summary.fewest, 3);
    assert_eq!(texts(&summary.fewest_chain), ["blush"]);
    assert_eq!(summary.most, 7);
    assert_eq!(texts(&summary.most_chain), ["humph"]);
}

#[test]
fn the_first_of_equal_chains_is_reported() {
    let corpus = tiny();
    let rows = replay(&corpus, 0, &["+----", "-=---"], false);
    let summary = summarise(&rows[1]).unwrap();
    assert_eq!(summary.guesses, 1);
    assert_eq!(summary.fewest, 1);
    assert_eq!(summary.most, 1);
    assert_eq!(texts(&summary.fewest_chain), ["awake", "sissy"]);
    assert_eq!(texts(&summary.most_chain), ["awake", "sissy"]);
}

#[test]
fn lookup_for_one_guess() {
    let corpus = tiny();
    let sissy = Word::try_from("sissy", &corpus).unwrap();
    let nothing = GuessStatus([NotUsed; 5]);
    assert_eq!(
        texts(&filter_from_guess(&corpus, sissy, &nothing, false)),
        ["awake", "evade", "focal", "humph", "naval", "rebut"]
    );
    // With the accepted words a word of both lists is found twice.
    assert_eq!(
        texts(&filter_from_guess(&corpus, sissy, &nothing, true)),
        ["awake", "evade", "focal", "humph", "label", "naval", "naval", "rebut"]
    );
    let naval = Word::try_from("naval", &corpus).unwrap();
    let solved = GuessStatus([Correct; 5]);
    assert_eq!(texts(&filter_from_guess(&corpus, naval, &solved, false)), ["naval"]);
    let label = Word::try_from("label", &corpus).unwrap();
    let row = GuessStatus([NotUsed, Correct, NotUsed, NotUsed, Correct]);
    assert_eq!(texts(&filter_from_guess(&corpus, label, &row, true)), ["naval", "naval"]);
    let row = GuessStatus([Misplaced, Correct, NotUsed, NotUsed, Misplaced]);
    assert!(filter_from_guess(&corpus, label, &row, true).is_empty());
}
