//! Replaying a recorded game: for each round, the guesses that would have
//! earned the same feedback, and for each chain of such guesses the targets
//! that it leaves possible.

use rayon::iter::{IntoParallelRefIterator, ParallelIterator};
use vstd::prelude::*;
use crate::feedback::{parse_row, solved, GuessStatus, LetterGuess};
use crate::chains::{chains_wf, lemma_analysis_wf, lemma_round_wf, row_wf};
use crate::order::{ascending, copy_words};
use crate::score::{score, WordGuess};
use crate::word::{Word, WordError, WordErrorView};

verus! {

/// A chain of guesses, one for each round so far, with the targets that
/// remain possible if those guesses earned the recorded feedback.
#[derive(Clone, Debug)]
pub struct ChainTargets {
    pub chain: Vec<Word>,
    pub targets: Vec<Word>,
}

/// A `ChainTargets` with its lists as sequences.
pub struct ChainView {
    pub chain: Seq<Word>,
    pub targets: Seq<Word>,
}

impl View for ChainTargets {
    type V = ChainView;

    open spec fn view(&self) -> ChainView {
        ChainView { chain: self.chain@, targets: self.targets@ }
    }
}

/// What one round of a recorded game allows.
#[derive(Clone, Debug)]
pub struct RowAnalysis {
    /// The feedback that was recorded for the round.
    pub guess: GuessStatus,
    /// The words that earn this feedback against the real target.
    pub possible_guesses: Vec<Word>,
    /// Every chain of the round before, extended by each possible guess.
    pub possible_targets: Vec<ChainTargets>,
}

/// A `RowAnalysis` with its lists as sequences.
pub struct RowView {
    pub guess: Seq<LetterGuess>,
    pub possible_guesses: Seq<Word>,
    pub possible_targets: Seq<ChainView>,
}

impl View for RowAnalysis {
    type V = RowView;

    open spec fn view(&self) -> RowView {
        RowView {
            guess: self.guess@,
            possible_guesses: self.possible_guesses@,
            possible_targets: chain_views(self.possible_targets@),
        }
    }
}

/// The views of a list of chains.
pub open spec fn chain_views(entries: Seq<ChainTargets>) -> Seq<ChainView> {
    entries.map_values(|e: ChainTargets| e@)
}

/// The views of a list of rounds.
pub open spec fn row_views(rows: Seq<RowAnalysis>) -> Seq<RowView> {
    rows.map_values(|r: RowAnalysis| r@)
}

/// The words of `words` that earn `observed` as guesses against `target`.
pub open spec fn alternatives(words: Seq<Word>, target: Word, observed: Seq<LetterGuess>) -> Seq<
    Word,
> {
    words.filter(|w: Word| score(w@, target@) == observed)
}

/// The words of `targets` against which `guess` earns `observed`.
pub open spec fn survivors(targets: Seq<Word>, guess: Word, observed: Seq<LetterGuess>) -> Seq<
    Word,
> {
    targets.filter(|t: Word| score(guess@, t@) == observed)
}

/// The survivors of two lists, one after the other, are the survivors of
/// the first followed by those of the second.
pub proof fn lemma_survivors_of_both(
    first: Seq<Word>,
    second: Seq<Word>,
    guess: Word,
    observed: Seq<LetterGuess>,
)
    ensures
        survivors(first + second, guess, observed) == survivors(first, guess, observed)
            + survivors(second, guess, observed),
{
    Seq::filter_distributes_over_add(first, second, |t: Word| score(guess@, t@) == observed);
}

/// One chain extended by each of `guesses` in turn: the guess is added to
/// the chain, and the targets are cut down to those that agree with it.
pub open spec fn extend(entry: ChainView, guesses: Seq<Word>, observed: Seq<LetterGuess>) -> Seq<
    ChainView,
> {
    Seq::new(
        guesses.len(),
        |j: int|
            ChainView {
                chain: entry.chain.push(guesses[j]),
                targets: survivors(entry.targets, guesses[j], observed),
            },
    )
}

/// Every chain of `prev` extended by each of `guesses`: the chains of
/// `prev` in their order, and for each of them the guesses in theirs.
pub open spec fn step(prev: Seq<ChainView>, guesses: Seq<Word>, observed: Seq<LetterGuess>) -> Seq<
    ChainView,
>
    decreases prev.len(),
{
    if prev.len() == 0 {
        Seq::empty()
    } else {
        step(prev.drop_last(), guesses, observed) + extend(prev.last(), guesses, observed)
    }
}

/// The chains before the first round: the empty chain alone, with every
/// word of `universe` as a possible target.
pub open spec fn seed(universe: Seq<Word>) -> Seq<ChainView> {
    seq![ChainView { chain: Seq::empty(), targets: universe }]
}

/// One round: the alternative guesses are drawn from `words`, and each
/// chain of `prev` is extended by each of them.
pub open spec fn round(
    prev: Seq<ChainView>,
    words: Seq<Word>,
    target: Word,
    observed: Seq<LetterGuess>,
) -> RowView {
    let guesses = alternatives(words, target, observed);
    RowView {
        guess: observed,
        possible_guesses: guesses,
        possible_targets: step(prev, guesses, observed),
    }
}

/// The rounds that the lines of a transcript give, starting from the chains
/// `prev`. Empty lines are passed over; a line that does not read as
/// feedback ends the replay with its error, whatever came before.
pub open spec fn replay(
    prev: Seq<ChainView>,
    lines: Seq<Seq<char>>,
    words: Seq<Word>,
    target: Word,
) -> Result<Seq<RowView>, WordErrorView>
    decreases lines.len(), 1int,
{
    if lines.len() == 0 {
        Ok(Seq::empty())
    } else if lines[0].len() == 0 {
        replay(prev, lines.drop_first(), words, target)
    } else {
        match parse_row(lines[0]) {
            Err(e) => Err(e),
            Ok(observed) => follow(observed, prev, lines.drop_first(), words, target),
        }
    }
}

/// The round for `observed`, and after it the rounds of `lines`, unless
/// `observed` is all correct: the game ends there, and the lines that
/// follow are not read.
pub open spec fn follow(
    observed: Seq<LetterGuess>,
    prev: Seq<ChainView>,
    lines: Seq<Seq<char>>,
    words: Seq<Word>,
    target: Word,
) -> Result<Seq<RowView>, WordErrorView>
    decreases lines.len(), 2int,
{
    let row = round(prev, words, target, observed);
    if observed == solved() {
        Ok(seq![row])
    } else {
        after(seq![row], replay(row.possible_targets, lines, words, target))
    }
}

/// The rounds `done` followed by those of `rest`, or the error of `rest`.
pub open spec fn after(done: Seq<RowView>, rest: Result<Seq<RowView>, WordErrorView>) -> Result<
    Seq<RowView>,
    WordErrorView,
> {
    match rest {
        Err(e) => Err(e),
        Ok(rows) => Ok(done + rows),
    }
}

/// The analysis of a whole game: the row that came with the header, if
/// there was one, and then the lines.
pub open spec fn analysis(
    first: Option<Seq<LetterGuess>>,
    lines: Seq<Seq<char>>,
    words: Seq<Word>,
    universe: Seq<Word>,
    target: Word,
) -> Result<Seq<RowView>, WordErrorView> {
    match first {
        Some(observed) => follow(observed, seed(universe), lines, words, target),
        None => replay(seed(universe), lines, words, target),
    }
}

/// The analysis of a whole game, the first row taken by its view.
pub open spec fn analysis_total(
    first: Option<GuessStatus>,
    lines: Seq<Seq<char>>,
    words: Seq<Word>,
    universe: Seq<Word>,
    target: Word,
) -> Result<Seq<RowView>, WordErrorView> {
    analysis(
        match first {
            Some(row) => Some(row@),
            None => None,
        },
        lines,
        words,
        universe,
        target,
    )
}

/// The result of an analysis, by its view.
pub open spec fn analysis_view(r: Result<Vec<RowAnalysis>, WordError>) -> Result<
    Seq<RowView>,
    WordErrorView,
> {
    match r {
        Ok(rows) => Ok(row_views(rows@)),
        Err(e) => Err(e@),
    }
}

/// The texts of the lines.
pub open spec fn line_texts(lines: Seq<&str>) -> Seq<Seq<char>> {
    lines.map_values(|l: &str| l@)
}

/// The words of `words` that earn `observed` as guesses against `target`.
pub fn alternative_guesses(words: &Vec<Word>, target: Word, observed: &GuessStatus) -> (out: Vec<
    Word,
>)
    ensures
        out@ == alternatives(words@, target, observed@),
{
    let mut out: Vec<Word> = Vec::new();
    let mut i: usize = 0;
    proof {
        reveal(Seq::filter);
        assert(words@.take(0) =~= Seq::<Word>::empty());
    }
    while i < words.len()
        invariant
            i <= words.len(),
            out@ == alternatives(words@.take(i as int), target, observed@),
        decreases words.len() - i,
    {
        proof {
            reveal(Seq::filter);
            assert(words@.take(i + 1).drop_last() =~= words@.take(i as int));
        }
        let scored = WordGuess::guess(words[i], target);
        if scored.status.same(observed) {
            out.push(words[i]);
        }
        i += 1;
    }
    assert(words@.take(words.len() as int) =~= words@);
    out
}

/// The words of `targets` against which `guess` earns `observed`.
pub fn surviving_targets(targets: &Vec<Word>, guess: Word, observed: &GuessStatus) -> (out: Vec<
    Word,
>)
    ensures
        out@ == survivors(targets@, guess, observed@),
{
    let mut out: Vec<Word> = Vec::new();
    let mut i: usize = 0;
    proof {
        reveal(Seq::filter);
        assert(targets@.take(0) =~= Seq::<Word>::empty());
    }
    while i < targets.len()
        invariant
            i <= targets.len(),
            out@ == survivors(targets@.take(i as int), guess, observed@),
        decreases targets.len() - i,
    {
        proof {
            reveal(Seq::filter);
            assert(targets@.take(i + 1).drop_last() =~= targets@.take(i as int));
        }
        let scored = WordGuess::guess(guess, targets[i]);
        if scored.status.same(observed) {
            out.push(targets[i]);
        }
        i += 1;
    }
    assert(targets@.take(targets.len() as int) =~= targets@);
    out
}

/// One chain extended by each of `guesses` in turn.
pub fn extend_chain(entry: &ChainTargets, guesses: &Vec<Word>, observed: &GuessStatus) -> (out: Vec<
    ChainTargets,
>)
    ensures
        chain_views(out@) == extend(entry@, guesses@, observed@),
{
    let mut out: Vec<ChainTargets> = Vec::new();
    let mut j: usize = 0;
    while j < guesses.len()
        invariant
            j <= guesses.len(),
            out@.len() == j,
            forall|k: int|
                0 <= k < j ==> (#[trigger] out@[k])@ == extend(entry@, guesses@, observed@)[k],
        decreases guesses.len() - j,
    {
        let mut chain = copy_words(&entry.chain);
        chain.push(guesses[j]);
        let targets = surviving_targets(&entry.targets, guesses[j], observed);
        out.push(ChainTargets { chain, targets });
        j += 1;
    }
    assert(chain_views(out@) =~= extend(entry@, guesses@, observed@));
    out
}

/// Runs `extend_chain` on every chain of `prev`, the chains in parallel, and
/// gathers what they give.
///
/// Calls rayon's `par_iter`, `flat_map_iter` and `collect`. Claimed of them:
/// the closure is run once on each item, and the collected vector holds the
/// items that the closure's results yield, in the order of `prev` and,
/// within one result, in that result's order.
#[verifier::external_body]
fn fan_out(prev: &Vec<ChainTargets>, guesses: &Vec<Word>, observed: &GuessStatus) -> (out: Vec<
    ChainTargets,
>)
    ensures
        chain_views(out@) == step(chain_views(prev@), guesses@, observed@),
{
    prev.par_iter().flat_map_iter(|entry| extend_chain(entry, guesses, observed)).collect()
}

/// Analyses one round: the chains `prev` of the round before, the words
/// that may be guessed, the real target and the feedback that was recorded.
pub fn analyse_round(
    prev: &Vec<ChainTargets>,
    words: &Vec<Word>,
    target: Word,
    observed: GuessStatus,
) -> (row: RowAnalysis)
    ensures
        row@ == round(chain_views(prev@), words@, target, observed@),
        forall|length: nat|
            chains_wf(chain_views(prev@), length) && ascending(words@) ==> row_wf(row@, length),
{
    proof {
        assert forall|length: nat|
            chains_wf(chain_views(prev@), length) && ascending(words@) implies row_wf(
            round(chain_views(prev@), words@, target, observed@),
            length,
        ) by {
            lemma_round_wf(chain_views(prev@), words@, target, observed@, length);
        }
    }
    let possible_guesses = alternative_guesses(words, target, &observed);
    let possible_targets = fan_out(prev, &possible_guesses, &observed);
    RowAnalysis { guess: observed, possible_guesses, possible_targets }
}

/// The chains before the first round.
pub fn seed_chains(universe: Vec<Word>) -> (out: Vec<ChainTargets>)
    ensures
        chain_views(out@) == seed(universe@),
{
    let mut out: Vec<ChainTargets> = Vec::new();
    out.push(ChainTargets { chain: Vec::new(), targets: universe });
    assert(chain_views(out@) =~= seed(universe@));
    out
}

/// The chains that the next round starts from: those of the last round that
/// was analysed, or `start` before the first.
pub open spec fn latest(start: Seq<ChainView>, rows: Seq<RowView>) -> Seq<ChainView> {
    if rows.len() == 0 {
        start
    } else {
        rows.last().possible_targets
    }
}

/// Analyses a recorded game.
///
/// `words` are the words that may be guessed and `universe` those that may
/// be the target before anything is known; `first` is the row that came
/// with the header, if one did, and `lines` are the lines after the header.
pub fn analyse(
    words: &Vec<Word>,
    universe: Vec<Word>,
    target: Word,
    first: Option<GuessStatus>,
    lines: &[&str],
) -> (r: Result<Vec<RowAnalysis>, WordError>)
    ensures
        analysis_view(r) == analysis_total(first, line_texts(lines@), words@, universe@, target),
        ascending(words@) && ascending(universe@) ==> (analysis_view(r) matches Ok(rows)
            ==> forall|k: int| 0 <= k < rows.len() ==> row_wf(#[trigger] rows[k], k as nat)),
{
    proof {
        if ascending(words@) && ascending(universe@) {
            lemma_analysis_wf(
                match first {
                    Some(row) => Some(row@),
                    None => None,
                },
                line_texts(lines@),
                words@,
                universe@,
                target,
            );
        }
    }
    let ghost texts = line_texts(lines@);
    let ghost start = seed(universe@);
    let ghost total = analysis_total(first, texts, words@, universe@, target);
    let start_chains = seed_chains(universe);
    let mut rows: Vec<RowAnalysis> = Vec::new();
    let mut done = false;
    assert(texts.skip(0) =~= texts);
    assert(row_views(rows@) =~= Seq::<RowView>::empty());
    match first {
        Some(observed) => {
            let row = analyse_round(&start_chains, words, target, observed);
            done = observed.is_solved();
            rows.push(row);
            assert(row_views(rows@) =~= seq![row@]);
            proof {
                let rest = replay(row@.possible_targets, texts, words@, target);
                if !done && rest is Ok {
                    assert(seq![row@] + rest->Ok_0 =~= row_views(rows@) + rest->Ok_0);
                }
            }
        },
        None => {
            assert(after(row_views(rows@), replay(start, texts, words@, target)) =~= replay(
                start,
                texts,
                words@,
                target,
            )) by {
                let rest = replay(start, texts, words@, target);
                if rest is Ok {
                    assert(row_views(rows@) + rest->Ok_0 =~= rest->Ok_0);
                }
            }
        },
    }
    let mut i: usize = 0;
    while !done && i < lines.len()
        invariant
            i <= lines.len(),
            texts == line_texts(lines@),
            start == chain_views(start_chains@),
            analysis_total(first, texts, words@, universe@, target) == total,
            total == if done {
                Ok::<Seq<RowView>, WordErrorView>(row_views(rows@))
            } else {
                after(
                    row_views(rows@),
                    replay(latest(start, row_views(rows@)), texts.skip(i as int), words@, target),
                )
            },
        decreases lines.len() - i,
    {
        let line = lines[i];
        let ghost rest = texts.skip(i as int);
        let ghost before = row_views(rows@);
        let ghost prev = latest(start, before);
        assert(rest.drop_first() =~= texts.skip(i + 1));
        assert(rest.len() > 0 && rest[0] == line@);
        assert(replay(prev, rest, words@, target) == if line@.len() == 0 {
            replay(prev, texts.skip(i + 1), words@, target)
        } else {
            match parse_row(line@) {
                Err(e) => Err(e),
                Ok(observed) => follow(observed, prev, texts.skip(i + 1), words@, target),
            }
        });
        if !line.is_empty() {
            match GuessStatus::try_from(line) {
                Err(e) => {
                    return Err(e);
                },
                Ok(observed) => {
                    assert(rows.len() > 0 ==> before.last() == rows@.last()@);
                    let row = if rows.len() == 0 {
                        analyse_round(&start_chains, words, target, observed)
                    } else {
                        analyse_round(
                            &rows[rows.len() - 1].possible_targets,
                            words,
                            target,
                            observed,
                        )
                    };
                    done = observed.is_solved();
                    rows.push(row);
                    proof {
                        assert(row@ == round(prev, words@, target, observed@));
                        assert(row_views(rows@) =~= before + seq![row@]);
                        assert(row_views(rows@).last() == row@);
                        let later = replay(
                            row@.possible_targets,
                            texts.skip(i + 1),
                            words@,
                            target,
                        );
                        if !done && later is Ok {
                            assert(before + (seq![row@] + later->Ok_0) =~= row_views(rows@)
                                + later->Ok_0);
                        }
                    }
                },
            }
        }
        i += 1;
    }
    proof {
        if !done {
            assert(row_views(rows@) + Seq::<RowView>::empty() =~= row_views(rows@));
        }
    }
    Ok(rows)
}

} // verus!
