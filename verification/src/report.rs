//! The figures that are reported for each round of a replay.

use vstd::prelude::*;
use crate::analysis::{chain_views, ChainView, RowAnalysis, RowView};
use crate::chains::{chain_precedes, chains_ordered};
use crate::order::copy_words;
use crate::word::Word;

verus! {

/// The figures of one round: how many guesses would have earned its
/// feedback, and the fewest and the most targets that a chain leaves
/// possible, each with the first chain that leaves so many.
#[derive(Clone, Debug)]
pub struct RoundSummary {
    pub guesses: usize,
    pub fewest: usize,
    pub fewest_chain: Vec<Word>,
    pub most: usize,
    pub most_chain: Vec<Word>,
}

/// A `RoundSummary` with its chains as sequences.
pub struct SummaryView {
    pub guesses: nat,
    pub fewest: nat,
    pub fewest_chain: Seq<Word>,
    pub most: nat,
    pub most_chain: Seq<Word>,
}

impl View for RoundSummary {
    type V = SummaryView;

    open spec fn view(&self) -> SummaryView {
        SummaryView {
            guesses: self.guesses as nat,
            fewest: self.fewest as nat,
            fewest_chain: self.fewest_chain@,
            most: self.most as nat,
            most_chain: self.most_chain@,
        }
    }
}

/// The place of the first chain that leaves the fewest targets.
pub open spec fn fewest_index(entries: Seq<ChainView>) -> int
    decreases entries.len(),
{
    if entries.len() <= 1 {
        0
    } else {
        let i = fewest_index(entries.drop_last());
        if entries.last().targets.len() < entries[i].targets.len() {
            entries.len() - 1
        } else {
            i
        }
    }
}

/// The place of the first chain that leaves the most targets.
pub open spec fn most_index(entries: Seq<ChainView>) -> int
    decreases entries.len(),
{
    if entries.len() <= 1 {
        0
    } else {
        let i = most_index(entries.drop_last());
        if entries.last().targets.len() > entries[i].targets.len() {
            entries.len() - 1
        } else {
            i
        }
    }
}

/// The figures of a round; a round without chains has none.
pub open spec fn summary(row: RowView) -> Option<SummaryView> {
    let entries = row.possible_targets;
    if entries.len() == 0 {
        None
    } else {
        Some(
            SummaryView {
                guesses: row.possible_guesses.len(),
                fewest: entries[fewest_index(entries)].targets.len(),
                fewest_chain: entries[fewest_index(entries)].chain,
                most: entries[most_index(entries)].targets.len(),
                most_chain: entries[most_index(entries)].chain,
            },
        )
    }
}

/// The result of summing up a round, by its view.
pub open spec fn summary_view(r: Option<RoundSummary>) -> Option<SummaryView> {
    match r {
        Some(s) => Some(s@),
        None => None,
    }
}

/// No chain leaves fewer targets than the one at `fewest_index`, and none
/// before it leaves as few; likewise for `most_index`.
pub proof fn lemma_extremes(entries: Seq<ChainView>)
    requires
        entries.len() > 0,
    ensures
        0 <= fewest_index(entries) < entries.len(),
        0 <= most_index(entries) < entries.len(),
        forall|k: int|
            0 <= k < entries.len() ==> entries[fewest_index(entries)].targets.len() <= (
            #[trigger] entries[k]).targets.len(),
        forall|k: int|
            0 <= k < fewest_index(entries) ==> entries[fewest_index(entries)].targets.len() < (
            #[trigger] entries[k]).targets.len(),
        forall|k: int|
            0 <= k < entries.len() ==> entries[most_index(entries)].targets.len() >= (
            #[trigger] entries[k]).targets.len(),
        forall|k: int|
            0 <= k < most_index(entries) ==> entries[most_index(entries)].targets.len() > (
            #[trigger] entries[k]).targets.len(),
    decreases entries.len(),
{
    if entries.len() > 1 {
        let shorter = entries.drop_last();
        lemma_extremes(shorter);
        assert forall|k: int| 0 <= k < entries.len() - 1 implies #[trigger] entries[k]
            == shorter[k] by {}
        assert(entries[fewest_index(shorter)] == shorter[fewest_index(shorter)]);
        assert(entries[most_index(shorter)] == shorter[most_index(shorter)]);
    }
}

/// Among the chains that leave the fewest targets, and among those that
/// leave the most, the one reported comes first in the order of chains.
pub proof fn lemma_reported_chain_is_least(entries: Seq<ChainView>, length: nat, k: int)
    requires
        chains_ordered(entries, length),
        0 <= k < entries.len(),
    ensures
        k != fewest_index(entries) && entries[k].targets.len() == entries[fewest_index(
            entries,
        )].targets.len() ==> chain_precedes(
            entries[fewest_index(entries)].chain,
            entries[k].chain,
        ),
        k != most_index(entries) && entries[k].targets.len() == entries[most_index(
            entries,
        )].targets.len() ==> chain_precedes(entries[most_index(entries)].chain, entries[k].chain),
{
    lemma_extremes(entries);
}

/// Sums up a round.
pub fn summarise(row: &RowAnalysis) -> (r: Option<RoundSummary>)
    ensures
        summary_view(r) == summary(row@),
{
    let entries = &row.possible_targets;
    if entries.len() == 0 {
        return None;
    }
    let ghost views = chain_views(entries@);
    let mut low: usize = 0;
    let mut high: usize = 0;
    let mut i: usize = 1;
    while i < entries.len()
        invariant
            1 <= i <= entries.len(),
            views == chain_views(entries@),
            low == fewest_index(views.take(i as int)),
            high == most_index(views.take(i as int)),
            low < i,
            high < i,
        decreases entries.len() - i,
    {
        proof {
            let longer = views.take(i + 1);
            assert(longer.drop_last() =~= views.take(i as int));
            assert(longer[low as int] == entries@[low as int]@);
            assert(longer[high as int] == entries@[high as int]@);
            assert(longer.last() == entries@[i as int]@);
        }
        if entries[i].targets.len() < entries[low].targets.len() {
            low = i;
        }
        if entries[i].targets.len() > entries[high].targets.len() {
            high = i;
        }
        i += 1;
    }
    proof {
        assert(views.take(entries.len() as int) =~= views);
        assert(views[low as int] == entries@[low as int]@);
        assert(views[high as int] == entries@[high as int]@);
    }
    Some(
        RoundSummary {
            guesses: row.possible_guesses.len(),
            fewest: entries[low].targets.len(),
            fewest_chain: copy_words(&entries[low].chain),
            most: entries[high].targets.len(),
            most_chain: copy_words(&entries[high].chain),
        },
    )
}

} // verus!
