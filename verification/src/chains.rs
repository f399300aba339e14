//! What holds of the chains of a replay: their order, and how each round
//! follows from the one before.

use vstd::prelude::*;
use crate::analysis::{
    after, alternatives, analysis, extend, follow, replay, round, seed, step, survivors,
    ChainView, RowView,
};
use crate::feedback::{parse_row, solved, LetterGuess};
use crate::order::{ascending, lemma_filter_ascending};
use crate::score::score;
use crate::word::{rank, Word, WordErrorView};

verus! {

/// Whether chain `a` comes before chain `b`: they are compared guess by
/// guess, in dictionary order, and a chain comes after each of its
/// beginnings.
pub open spec fn chain_precedes(a: Seq<Word>, b: Seq<Word>) -> bool
    decreases a.len(),
{
    if b.len() == 0 {
        false
    } else if a.len() == 0 {
        true
    } else if rank(a[0]@) != rank(b[0]@) {
        rank(a[0]@) < rank(b[0]@)
    } else {
        chain_precedes(a.drop_first(), b.drop_first())
    }
}

/// Every chain has `length` guesses, and the chains stand in their order,
/// none twice.
pub open spec fn chains_ordered(entries: Seq<ChainView>, length: nat) -> bool {
    &&& forall|i: int| 0 <= i < entries.len() ==> (#[trigger] entries[i]).chain.len() == length
    &&& forall|i: int, j: int|
        0 <= i < j < entries.len() ==> chain_precedes(
            (#[trigger] entries[i]).chain,
            (#[trigger] entries[j]).chain,
        )
}

/// `entry` continues `parent` by one guess, and every target that it leaves
/// possible was possible for `parent`.
pub open spec fn continues(parent: ChainView, entry: ChainView) -> bool {
    &&& entry.chain.len() == parent.chain.len() + 1
    &&& entry.chain.drop_last() == parent.chain
    &&& forall|t: Word| entry.targets.contains(t) ==> parent.targets.contains(t)
}

/// Each round is the round that its feedback gives from the chains of the
/// round before it, the first from `start`; and only the last round can be
/// all correct.
pub open spec fn linked(start: Seq<ChainView>, rows: Seq<RowView>, words: Seq<Word>, target: Word) -> bool {
    &&& forall|k: int|
        0 <= k < rows.len() ==> #[trigger] rows[k] == round(
            if k == 0 {
                start
            } else {
                rows[k - 1].possible_targets
            },
            words,
            target,
            rows[k].guess,
        )
    &&& forall|k: int| 0 <= k < rows.len() - 1 ==> (#[trigger] rows[k]).guess != solved()
}

/// Two chains that differ only in their last guess stand as those guesses
/// do.
pub proof fn lemma_same_beginning(c: Seq<Word>, x: Word, y: Word)
    requires
        rank(x@) < rank(y@),
    ensures
        chain_precedes(c.push(x), c.push(y)),
    decreases c.len(),
{
    if c.len() > 0 {
        assert(c.push(x).drop_first() =~= c.drop_first().push(x));
        assert(c.push(y).drop_first() =~= c.drop_first().push(y));
        lemma_same_beginning(c.drop_first(), x, y);
    }
}

/// Two chains of one length keep their order, whatever guess each is
/// continued by.
pub proof fn lemma_earlier_beginning(a: Seq<Word>, b: Seq<Word>, x: Word, y: Word)
    requires
        a.len() == b.len(),
        chain_precedes(a, b),
    ensures
        chain_precedes(a.push(x), b.push(y)),
    decreases a.len(),
{
    if a.len() > 0 {
        assert(a.push(x).drop_first() =~= a.drop_first().push(x));
        assert(b.push(y).drop_first() =~= b.drop_first().push(y));
        if rank(a[0]@) == rank(b[0]@) {
            lemma_earlier_beginning(a.drop_first(), b.drop_first(), x, y);
        }
    }
}

/// Every chain of a step is some chain of the round before, continued by
/// some guess.
pub proof fn lemma_step_origin(
    prev: Seq<ChainView>,
    guesses: Seq<Word>,
    observed: Seq<LetterGuess>,
    n: int,
) -> (origin: (int, int))
    requires
        0 <= n < step(prev, guesses, observed).len(),
    ensures
        0 <= origin.0 < prev.len(),
        0 <= origin.1 < guesses.len(),
        step(prev, guesses, observed)[n] == extend(prev[origin.0], guesses, observed)[origin.1],
    decreases prev.len(),
{
    let earlier = step(prev.drop_last(), guesses, observed);
    if n < earlier.len() {
        let origin = lemma_step_origin(prev.drop_last(), guesses, observed, n);
        origin
    } else {
        (prev.len() - 1, n - earlier.len())
    }
}

/// Every chain of a step continues a chain of the round before.
pub proof fn lemma_step_continues(
    prev: Seq<ChainView>,
    guesses: Seq<Word>,
    observed: Seq<LetterGuess>,
    n: int,
) -> (parent: int)
    requires
        0 <= n < step(prev, guesses, observed).len(),
    ensures
        0 <= parent < prev.len(),
        continues(prev[parent], step(prev, guesses, observed)[n]),
{
    let (i, j) = lemma_step_origin(prev, guesses, observed, n);
    let entry = step(prev, guesses, observed)[n];
    assert(entry.chain.drop_last() =~= prev[i].chain);
    assert forall|t: Word| entry.targets.contains(t) implies prev[i].targets.contains(t) by {
        prev[i].targets.lemma_filter_contains_rev(
            |t: Word| score(guesses[j]@, t@) == observed,
            t,
        );
    }
    i
}

/// A step keeps the chains in order and free of repeats: if the chains of
/// the round before are, and the guesses stand in dictionary order, each
/// once, then every pair of a chain and a guess gives a chain of its own.
pub proof fn lemma_step_ordered(
    prev: Seq<ChainView>,
    guesses: Seq<Word>,
    observed: Seq<LetterGuess>,
    length: nat,
)
    requires
        chains_ordered(prev, length),
        ascending(guesses),
    ensures
        chains_ordered(step(prev, guesses, observed), length + 1),
    decreases prev.len(),
{
    if prev.len() > 0 {
        let shorter = prev.drop_last();
        let earlier = step(shorter, guesses, observed);
        let last = extend(prev.last(), guesses, observed);
        let all = step(prev, guesses, observed);
        assert forall|i: int| 0 <= i < shorter.len() implies (#[trigger] shorter[i]).chain.len()
            == length by {
            assert(shorter[i] == prev[i]);
        }
        assert forall|i: int, j: int| 0 <= i < j < shorter.len() implies chain_precedes(
            (#[trigger] shorter[i]).chain,
            (#[trigger] shorter[j]).chain,
        ) by {
            assert(shorter[i] == prev[i] && shorter[j] == prev[j]);
        }
        lemma_step_ordered(shorter, guesses, observed, length);
        assert forall|i: int| 0 <= i < all.len() implies (#[trigger] all[i]).chain.len() == length
            + 1 by {
            if i < earlier.len() {
                assert(all[i] == earlier[i]);
            } else {
                assert(all[i] == last[i - earlier.len()]);
            }
        }
        assert forall|i: int, j: int| 0 <= i < j < all.len() implies chain_precedes(
            (#[trigger] all[i]).chain,
            (#[trigger] all[j]).chain,
        ) by {
            if j < earlier.len() {
                assert(all[i] == earlier[i] && all[j] == earlier[j]);
            } else if i < earlier.len() {
                let (p, g) = lemma_step_origin(shorter, guesses, observed, i);
                assert(all[i] == earlier[i]);
                assert(all[j] == last[j - earlier.len()]);
                assert(shorter[p] == prev[p]);
                lemma_earlier_beginning(
                    prev[p].chain,
                    prev.last().chain,
                    guesses[g],
                    guesses[j - earlier.len()],
                );
            } else {
                assert(all[i] == last[i - earlier.len()]);
                assert(all[j] == last[j - earlier.len()]);
                lemma_same_beginning(
                    prev.last().chain,
                    guesses[i - earlier.len()],
                    guesses[j - earlier.len()],
                );
            }
        }
    }
}

/// The chains stand in order, none twice, each with `length` guesses, and
/// the targets of each stand in dictionary order, each once.
pub open spec fn chains_wf(entries: Seq<ChainView>, length: nat) -> bool {
    &&& chains_ordered(entries, length)
    &&& forall|i: int| 0 <= i < entries.len() ==> ascending((#[trigger] entries[i]).targets)
}

/// The validity of round `k` of an analysis: what the round holds as lists
/// are sets and a map, written out in their order. The guesses stand in
/// dictionary order, each once; so do the targets of each chain; and the
/// chains, of `k + 1` guesses each, stand in their order, none twice.
pub open spec fn row_wf(row: RowView, k: nat) -> bool {
    &&& ascending(row.possible_guesses)
    &&& chains_wf(row.possible_targets, k + 1)
}

/// A step keeps the chains valid.
pub proof fn lemma_step_wf(
    prev: Seq<ChainView>,
    guesses: Seq<Word>,
    observed: Seq<LetterGuess>,
    length: nat,
)
    requires
        chains_wf(prev, length),
        ascending(guesses),
    ensures
        chains_wf(step(prev, guesses, observed), length + 1),
{
    lemma_step_ordered(prev, guesses, observed, length);
    let all = step(prev, guesses, observed);
    assert forall|n: int| 0 <= n < all.len() implies ascending((#[trigger] all[n]).targets) by {
        let (i, j) = lemma_step_origin(prev, guesses, observed, n);
        lemma_filter_ascending(prev[i].targets, |t: Word| score(guesses[j]@, t@) == observed);
    }
}

/// A round from valid chains is valid, where the words that may be guessed
/// stand in dictionary order, each once.
pub proof fn lemma_round_wf(
    prev: Seq<ChainView>,
    words: Seq<Word>,
    target: Word,
    observed: Seq<LetterGuess>,
    length: nat,
)
    requires
        chains_wf(prev, length),
        ascending(words),
    ensures
        row_wf(round(prev, words, target, observed), length),
{
    lemma_filter_ascending(words, |w: Word| score(w@, target@) == observed);
    lemma_step_wf(prev, alternatives(words, target, observed), observed, length);
}

/// The rounds of a replay are linked, each to the one before it.
pub proof fn lemma_replay_linked(
    prev: Seq<ChainView>,
    lines: Seq<Seq<char>>,
    words: Seq<Word>,
    target: Word,
)
    ensures
        replay(prev, lines, words, target) matches Ok(rows) ==> linked(prev, rows, words, target),
    decreases lines.len(), 1int,
{
    if lines.len() > 0 {
        if lines[0].len() == 0 {
            lemma_replay_linked(prev, lines.drop_first(), words, target);
        } else if let Ok(observed) = parse_row(lines[0]) {
            lemma_follow_linked(observed, prev, lines.drop_first(), words, target);
        }
    }
}

/// The rounds from a row of feedback on are linked, each to the one before
/// it.
pub proof fn lemma_follow_linked(
    observed: Seq<LetterGuess>,
    prev: Seq<ChainView>,
    lines: Seq<Seq<char>>,
    words: Seq<Word>,
    target: Word,
)
    ensures
        follow(observed, prev, lines, words, target) matches Ok(rows) ==> rows.len() > 0 && linked(
            prev,
            rows,
            words,
            target,
        ),
    decreases lines.len(), 2int,
{
    let row = round(prev, words, target, observed);
    if observed != solved() {
        lemma_replay_linked(row.possible_targets, lines, words, target);
        if let Ok(rest) = replay(row.possible_targets, lines, words, target) {
            let rows = seq![row] + rest;
            assert forall|k: int| 0 <= k < rows.len() implies #[trigger] rows[k] == round(
                if k == 0 {
                    prev
                } else {
                    rows[k - 1].possible_targets
                },
                words,
                target,
                rows[k].guess,
            ) by {
                if k > 0 {
                    assert(rows[k] == rest[k - 1]);
                    if k > 1 {
                        assert(rows[k - 1] == rest[k - 2]);
                    }
                }
            }
            assert forall|k: int| 0 <= k < rows.len() - 1 implies (#[trigger] rows[k]).guess
                != solved() by {
                if k > 0 {
                    assert(rows[k] == rest[k - 1]);
                }
            }
        }
    }
}

/// The rounds of a whole analysis are linked, the first to the seed.
pub proof fn lemma_analysis_linked(
    first: Option<Seq<LetterGuess>>,
    lines: Seq<Seq<char>>,
    words: Seq<Word>,
    universe: Seq<Word>,
    target: Word,
)
    ensures
        analysis(first, lines, words, universe, target) matches Ok(rows) ==> linked(
            seed(universe),
            rows,
            words,
            target,
        ),
{
    match first {
        Some(observed) => lemma_follow_linked(observed, seed(universe), lines, words, target),
        None => lemma_replay_linked(seed(universe), lines, words, target),
    }
}

/// From round to round the possible targets only shrink: every chain of a
/// round after the first continues a chain of the round before it, and
/// leaves no target possible that its parent had ruled out.
pub proof fn lemma_targets_shrink(
    first: Option<Seq<LetterGuess>>,
    lines: Seq<Seq<char>>,
    words: Seq<Word>,
    universe: Seq<Word>,
    target: Word,
    k: int,
    n: int,
) -> (parent: int)
    requires
        analysis(first, lines, words, universe, target) matches Ok(rows) && 0 < k < rows.len() && 0
            <= n < rows[k].possible_targets.len(),
    ensures
        ({
            let rows = analysis(first, lines, words, universe, target)->Ok_0;
            &&& 0 <= parent < rows[k - 1].possible_targets.len()
            &&& continues(rows[k - 1].possible_targets[parent], rows[k].possible_targets[n])
        }),
{
    let rows = analysis(first, lines, words, universe, target)->Ok_0;
    lemma_analysis_linked(first, lines, words, universe, target);
    assert(rows[k] == round(rows[k - 1].possible_targets, words, target, rows[k].guess));
    lemma_step_continues(
        rows[k - 1].possible_targets,
        rows[k].possible_guesses,
        rows[k].guess,
        n,
    )
}

/// An all-correct round ends the analysis: no round but the last is all
/// correct, whatever lines follow in the transcript.
pub proof fn lemma_stops_when_solved(
    first: Option<Seq<LetterGuess>>,
    lines: Seq<Seq<char>>,
    words: Seq<Word>,
    universe: Seq<Word>,
    target: Word,
    k: int,
)
    requires
        analysis(first, lines, words, universe, target) matches Ok(rows) && 0 <= k < rows.len()
            && rows[k].guess == solved(),
    ensures
        analysis(first, lines, words, universe, target)->Ok_0.len() == k + 1,
{
    lemma_analysis_linked(first, lines, words, universe, target);
}

/// Every round of linked rounds is valid, where the chains that they start
/// from are and the words that may be guessed stand in dictionary order,
/// each once. So no two ways of choosing the guesses give the same chain.
pub proof fn lemma_rows_wf(
    start: Seq<ChainView>,
    rows: Seq<RowView>,
    words: Seq<Word>,
    target: Word,
    length: nat,
    k: int,
)
    requires
        linked(start, rows, words, target),
        chains_wf(start, length),
        ascending(words),
        0 <= k < rows.len(),
    ensures
        row_wf(rows[k], (length + k) as nat),
    decreases k,
{
    let prev = if k == 0 {
        start
    } else {
        rows[k - 1].possible_targets
    };
    if k > 0 {
        lemma_rows_wf(start, rows, words, target, length, k - 1);
    }
    assert(rows[k] == round(prev, words, target, rows[k].guess));
    lemma_round_wf(prev, words, target, rows[k].guess, (length + k) as nat);
}

/// Every round of an analysis is valid, where the words that may be guessed
/// and the universe of targets stand in dictionary order, each word once.
pub proof fn lemma_analysis_wf(
    first: Option<Seq<LetterGuess>>,
    lines: Seq<Seq<char>>,
    words: Seq<Word>,
    universe: Seq<Word>,
    target: Word,
)
    requires
        ascending(words),
        ascending(universe),
    ensures
        analysis(first, lines, words, universe, target) matches Ok(rows) ==> forall|k: int|
            0 <= k < rows.len() ==> row_wf(#[trigger] rows[k], k as nat),
{
    lemma_analysis_linked(first, lines, words, universe, target);
    if let Ok(rows) = analysis(first, lines, words, universe, target) {
        assert forall|k: int| 0 <= k < rows.len() implies row_wf(#[trigger] rows[k], k as nat) by {
            lemma_rows_wf(seed(universe), rows, words, target, 0, k);
        }
    }
}

/// A replay fails only as reading a row does: on a wrong character or a
/// wrong length.
pub proof fn lemma_replay_errors(
    prev: Seq<ChainView>,
    lines: Seq<Seq<char>>,
    words: Seq<Word>,
    target: Word,
)
    ensures
        replay(prev, lines, words, target) matches Err(e) ==> e is Chars || e is Length,
    decreases lines.len(), 1int,
{
    if lines.len() > 0 {
        if lines[0].len() == 0 {
            lemma_replay_errors(prev, lines.drop_first(), words, target);
        } else if let Ok(observed) = parse_row(lines[0]) {
            lemma_follow_errors(observed, prev, lines.drop_first(), words, target);
        }
    }
}

/// The rounds from a row of feedback on fail only as reading a row does.
pub proof fn lemma_follow_errors(
    observed: Seq<LetterGuess>,
    prev: Seq<ChainView>,
    lines: Seq<Seq<char>>,
    words: Seq<Word>,
    target: Word,
)
    ensures
        follow(observed, prev, lines, words, target) matches Err(e) ==> e is Chars || e is Length,
    decreases lines.len(), 2int,
{
    if observed != solved() {
        lemma_replay_errors(round(prev, words, target, observed).possible_targets, lines, words, target);
    }
}

/// What follows an all-correct row of the transcript is not read: the
/// replay is the same whatever the later lines are.
pub proof fn lemma_rest_unread(
    prev: Seq<ChainView>,
    later: Seq<Seq<char>>,
    other: Seq<Seq<char>>,
    words: Seq<Word>,
    target: Word,
)
    ensures
        follow(solved(), prev, later, words, target) == follow(
            solved(),
            prev,
            other,
            words,
            target,
        ),
{
}

} // verus!
