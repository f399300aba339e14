//! Lists of words in dictionary order.

use vstd::prelude::*;
use vstd::seq_lib::{to_multiset_build, to_multiset_insert};
use crate::word::{lemma_rank_injective, lemma_same_letters, rank, Word};

verus! {

/// The words stand in dictionary order and none stands twice.
pub open spec fn ascending(words: Seq<Word>) -> bool {
    forall|i: int, j: int| 0 <= i < j < words.len() ==> rank(words[i]@) < rank(words[j]@)
}

/// The words stand in dictionary order; a word may stand more than once.
pub open spec fn sorted(words: Seq<Word>) -> bool {
    forall|i: int, j: int| 0 <= i < j < words.len() ==> rank(words[i]@) <= rank(words[j]@)
}

/// `set` holds exactly the words of `first` and of `second`.
pub open spec fn holds_both(set: Seq<Word>, first: Seq<Word>, second: Seq<Word>) -> bool {
    forall|w: Word| set.contains(w) <==> (first.contains(w) || second.contains(w))
}

/// A copy of `words`.
pub fn copy_words(words: &Vec<Word>) -> (out: Vec<Word>)
    ensures
        out@ == words@,
{
    let mut out: Vec<Word> = Vec::new();
    let mut i: usize = 0;
    while i < words.len()
        invariant
            i <= words.len(),
            out@ == words@.take(i as int),
        decreases words.len() - i,
    {
        out.push(words[i]);
        assert(words@.take(i + 1) =~= words@.take(i as int).push(words@[i as int]));
        i += 1;
    }
    assert(words@.take(words.len() as int) =~= words@);
    out
}

/// The first position of `words` whose word has rank `key` or more.
fn lower_bound(words: &Vec<Word>, key: u64) -> (at: usize)
    requires
        sorted(words@),
    ensures
        at <= words.len(),
        forall|k: int| 0 <= k < at ==> rank(words@[k]@) < key,
        forall|k: int| at <= k < words.len() ==> rank(words@[k]@) >= key,
{
    let mut low: usize = 0;
    let mut high: usize = words.len();
    while low < high
        invariant
            low <= high <= words.len(),
            sorted(words@),
            forall|k: int| 0 <= k < low ==> rank(words@[k]@) < key,
            forall|k: int| high <= k < words.len() ==> rank(words@[k]@) >= key,
        decreases high - low,
    {
        let middle = low + (high - low) / 2;
        if words[middle].rank() < key {
            low = middle + 1;
        } else {
            high = middle;
        }
    }
    low
}

/// A list with a word put in at some place holds what it held before, and
/// that word.
proof fn lemma_insert_contains(words: Seq<Word>, at: int, word: Word, w: Word)
    requires
        0 <= at <= words.len(),
    ensures
        words.insert(at, word).contains(w) <==> (words.contains(w) || w == word),
{
    let longer = words.insert(at, word);
    if words.contains(w) {
        let k = choose|k: int| 0 <= k < words.len() && words[k] == w;
        if k < at {
            assert(longer[k] == w);
        } else {
            assert(longer[k + 1] == w);
        }
    }
    if w == word {
        assert(longer[at] == w);
    }
    if longer.contains(w) {
        let k = choose|k: int| 0 <= k < longer.len() && longer[k] == w;
        if k < at {
            assert(words[k] == w);
        } else if k > at {
            assert(words[k - 1] == w);
        }
    }
}

/// Puts `word` into `set` at its place, unless `set` holds it already.
pub fn insert_unique(set: &mut Vec<Word>, word: Word)
    requires
        ascending(old(set)@),
    ensures
        ascending(final(set)@),
        forall|w: Word| final(set)@.contains(w) <==> (old(set)@.contains(w) || w == word),
{
    let key = word.rank();
    let at = lower_bound(set, key);
    let present = at < set.len() && set[at].rank() == key;
    if present {
        proof {
            lemma_rank_injective(set@[at as int]@, word@);
            lemma_same_letters(set@[at as int], word);
            assert(set@.contains(word));
        }
    } else {
        set.insert(at, word);
        proof {
            assert forall|w: Word| set@.contains(w) <==> (old(set)@.contains(w) || w == word) by {
                lemma_insert_contains(old(set)@, at as int, word, w);
            }
        }
    }
}

/// Puts `word` into `words` at its place, beside any equal word.
pub fn insert_sorted(words: &mut Vec<Word>, word: Word)
    requires
        sorted(old(words)@),
    ensures
        sorted(final(words)@),
        final(words)@.to_multiset() == old(words)@.to_multiset().insert(word),
{
    let key = word.rank();
    let at = lower_bound(words, key);
    let ghost before = words@;
    words.insert(at, word);
    proof {
        to_multiset_insert(before, at as int, word);
    }
}

/// The words of `first` and of `second` as one list in dictionary order,
/// each word once.
pub fn word_set(first: &Vec<Word>, second: &Vec<Word>) -> (set: Vec<Word>)
    ensures
        ascending(set@),
        holds_both(set@, first@, second@),
{
    let mut set: Vec<Word> = Vec::new();
    let mut i: usize = 0;
    while i < first.len()
        invariant
            i <= first.len(),
            ascending(set@),
            forall|w: Word| set@.contains(w) <==> first@.take(i as int).contains(w),
        decreases first.len() - i,
    {
        let ghost before = set@;
        insert_unique(&mut set, first[i]);
        proof {
            let word = first@[i as int];
            assert(first@.take(i + 1) =~= first@.take(i as int).push(word));
            assert forall|w: Word| set@.contains(w) <==> first@.take(i + 1).contains(w) by {
                lemma_push_contains(first@.take(i as int), word, w);
            }
        }
        i += 1;
    }
    assert(first@.take(first.len() as int) =~= first@);
    let mut j: usize = 0;
    while j < second.len()
        invariant
            j <= second.len(),
            ascending(set@),
            forall|w: Word|
                set@.contains(w) <==> (first@.contains(w) || second@.take(j as int).contains(w)),
        decreases second.len() - j,
    {
        insert_unique(&mut set, second[j]);
        proof {
            let word = second@[j as int];
            assert(second@.take(j + 1) =~= second@.take(j as int).push(word));
            assert forall|w: Word|
                set@.contains(w) <==> (first@.contains(w) || second@.take(j + 1).contains(
                    w,
                )) by {
                lemma_push_contains(second@.take(j as int), word, w);
            }
        }
        j += 1;
    }
    assert(second@.take(second.len() as int) =~= second@);
    set
}

/// A list with one more word holds what it held before, and that word.
proof fn lemma_push_contains(words: Seq<Word>, word: Word, w: Word)
    ensures
        words.push(word).contains(w) <==> (words.contains(w) || w == word),
{
    let longer = words.push(word);
    if words.contains(w) {
        let k = choose|k: int| 0 <= k < words.len() && words[k] == w;
        assert(longer[k] == w);
    }
    if w == word {
        assert(longer[words.len() as int] == w);
    }
    if longer.contains(w) {
        let k = choose|k: int| 0 <= k < longer.len() && longer[k] == w;
        if k < words.len() {
            assert(words[k] == w);
        }
    }
}

/// The words of `words` in dictionary order, each as often as it stands
/// there.
pub fn sort_words(words: &Vec<Word>) -> (out: Vec<Word>)
    ensures
        sorted(out@),
        out@.to_multiset() == words@.to_multiset(),
{
    let mut out: Vec<Word> = Vec::new();
    let mut i: usize = 0;
    assert(words@.take(0) =~= out@);
    while i < words.len()
        invariant
            i <= words.len(),
            sorted(out@),
            out@.to_multiset() == words@.take(i as int).to_multiset(),
        decreases words.len() - i,
    {
        insert_sorted(&mut out, words[i]);
        proof {
            assert(words@.take(i + 1) =~= words@.take(i as int).push(words@[i as int]));
            to_multiset_build(words@.take(i as int), words@[i as int]);
        }
        i += 1;
    }
    assert(words@.take(words.len() as int) =~= words@);
    out
}

/// Leaving words out of a list in dictionary order keeps it in order.
pub proof fn lemma_filter_ascending(words: Seq<Word>, keep: spec_fn(Word) -> bool)
    requires
        ascending(words),
    ensures
        ascending(words.filter(keep)),
    decreases words.len(),
{
    reveal(Seq::filter);
    if words.len() > 0 {
        let shorter = words.drop_last();
        let kept = shorter.filter(keep);
        lemma_filter_ascending(shorter, keep);
        let chosen = words.filter(keep);
        if keep(words.last()) {
            assert forall|i: int, j: int| 0 <= i < j < chosen.len() implies rank(chosen[i]@)
                < rank(chosen[j]@) by {
                if j == kept.len() {
                    shorter.lemma_filter_contains_rev(keep, kept[i]);
                    let k = choose|k: int| 0 <= k < shorter.len() && shorter[k] == kept[i];
                    assert(words[k] == kept[i]);
                }
            }
        }
    }
}

/// Two lists in dictionary order, each word once, that hold the same words
/// are the same list.
pub proof fn lemma_ascending_unique(a: Seq<Word>, b: Seq<Word>)
    requires
        ascending(a),
        ascending(b),
        forall|w: Word| a.contains(w) <==> b.contains(w),
    ensures
        a == b,
    decreases a.len(),
{
    if a.len() == 0 {
        if b.len() > 0 {
            assert(b.contains(b[0]));
        }
        assert(a =~= b);
    } else {
        let x = a.last();
        assert(a.contains(x));
        let k = choose|k: int| 0 <= k < b.len() && b[k] == x;
        let y = b.last();
        assert(b.contains(y));
        let m = choose|m: int| 0 <= m < a.len() && a[m] == y;
        assert(k == b.len() - 1);
        let shorter_a = a.drop_last();
        let shorter_b = b.drop_last();
        assert forall|w: Word| shorter_a.contains(w) <==> shorter_b.contains(w) by {
            if shorter_a.contains(w) {
                let i = choose|i: int| 0 <= i < shorter_a.len() && shorter_a[i] == w;
                assert(a[i] == w);
                assert(a.contains(w));
                let j = choose|j: int| 0 <= j < b.len() && b[j] == w;
                assert(j < b.len() - 1);
                assert(shorter_b[j] == w);
            }
            if shorter_b.contains(w) {
                let j = choose|j: int| 0 <= j < shorter_b.len() && shorter_b[j] == w;
                assert(b[j] == w);
                assert(b.contains(w));
                let i = choose|i: int| 0 <= i < a.len() && a[i] == w;
                assert(i < a.len() - 1);
                assert(shorter_a[i] == w);
            }
        }
        lemma_ascending_unique(shorter_a, shorter_b);
        assert(a =~= shorter_a.push(x));
        assert(b =~= shorter_b.push(y));
    }
}

} // verus!
