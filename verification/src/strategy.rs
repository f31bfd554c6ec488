//! Scoring a strategy: how many possible words remain once the clues of every
//! guess in the strategy are known.

use vstd::prelude::*;

use crate::utils::{
    admits_all, feedback, guess_to_filters, lemma_secret_passes_own_feedback,
    word_passes_filters, Filter,
};
use crate::words::Word;

verus! {

/// Whether `word` is consistent with every set of clues.
pub open spec fn admits_every(word: Seq<u8>, clue_sets: Seq<Seq<Filter>>) -> bool {
    forall|g: int| 0 <= g < clue_sets.len() ==> admits_all(word, #[trigger] clue_sets[g])
}

/// How many of `words` are consistent with every set of clues.
pub open spec fn count_consistent(words: Seq<Word>, clue_sets: Seq<Seq<Filter>>) -> nat
    decreases words.len(),
{
    if words.len() == 0 {
        0
    } else {
        count_consistent(words.drop_last(), clue_sets) + if admits_every(words.last()@, clue_sets) {
            1nat
        } else {
            0nat
        }
    }
}

/// The clues each guess of a strategy earns against `secret`, in the strategy's order.
pub open spec fn strategy_clues(secret: Seq<u8>, strat: Seq<Word>) -> Seq<Seq<Filter>> {
    Seq::new(strat.len(), |g: int| feedback(secret, strat[g]@))
}

/// The clue sets held in a list of clue arrays.
pub open spec fn clue_sets_view(filters: Seq<[Filter; 5]>) -> Seq<Seq<Filter>> {
    Seq::new(filters.len(), |g: int| filters[g]@)
}

proof fn lemma_count_consistent_bound(words: Seq<Word>, clue_sets: Seq<Seq<Filter>>)
    ensures
        count_consistent(words, clue_sets) <= words.len(),
    decreases words.len(),
{
    if words.len() > 0 {
        lemma_count_consistent_bound(words.drop_last(), clue_sets);
    }
}

/// The clues every guess of a strategy earns against `secret`.
pub fn strategy_filters(secret: Word, strat: &[Word]) -> (filters: Vec<[Filter; 5]>)
    ensures
        clue_sets_view(filters@) == strategy_clues(secret@, strat@),
        filters@.len() == strat@.len(),
        forall|g: int| 0 <= g < strat@.len() ==> (#[trigger] filters@[g])@ == feedback(secret@, strat@[g]@),
{
    let mut filters: Vec<[Filter; 5]> = Vec::new();
    let mut g: usize = 0;
    while g < strat.len()
        invariant
            g <= strat@.len(),
            filters@.len() == g,
            forall|h: int| 0 <= h < g ==> (#[trigger] filters@[h])@ == feedback(secret@, strat@[h]@),
        decreases strat@.len() - g,
    {
        filters.push(guess_to_filters(secret, strat[g]));
        g += 1;
    }
    assert(clue_sets_view(filters@) =~= strategy_clues(secret@, strat@));
    filters
}

/// Whether `word` is consistent with every set of clues.
fn passes_every(word: Word, filters: &[[Filter; 5]]) -> (ok: bool)
    ensures
        ok == admits_every(word@, clue_sets_view(filters@)),
{
    let mut g: usize = 0;
    while g < filters.len()
        invariant
            g <= filters@.len(),
            forall|h: int| 0 <= h < g ==> admits_all(word@, (#[trigger] filters@[h])@),
        decreases filters@.len() - g,
    {
        if !word_passes_filters(word, filters[g]) {
            assert(!admits_all(word@, clue_sets_view(filters@)[g as int]));
            return false;
        }
        g += 1;
    }
    true
}

/// How many of the possible words are consistent with every set of clues.
pub fn remaining_count(possible: &[Word], filters: &[[Filter; 5]]) -> (n: usize)
    ensures
        n == count_consistent(possible@, clue_sets_view(filters@)),
{
    let mut n: usize = 0;
    let mut w: usize = 0;
    while w < possible.len()
        invariant
            w <= possible@.len(),
            n == count_consistent(possible@.take(w as int), clue_sets_view(filters@)),
        decreases possible@.len() - w,
    {
        proof {
            assert(possible@.take(w + 1).drop_last() =~= possible@.take(w as int));
            lemma_count_consistent_bound(possible@.take(w as int), clue_sets_view(filters@));
        }
        if passes_every(possible[w], filters) {
            n += 1;
        }
        w += 1;
    }
    assert(possible@.take(w as int) =~= possible@);
    n
}

/// For each possible word taken as the secret, in order, how many possible words
/// remain consistent with the clues of every guess of the strategy.
pub fn strategy_remaining(possible: &[Word], strat: &[Word]) -> (counts: Vec<usize>)
    ensures
        counts@.len() == possible@.len(),
        forall|s: int|
            0 <= s < possible@.len() ==> #[trigger] counts@[s] == count_consistent(
                possible@,
                strategy_clues(possible@[s]@, strat@),
            ),
        (forall|g: int, p: int| 0 <= g < strat@.len() && 0 <= p < 5 ==> #[trigger] strat@[g]@[p] != 0)
            ==> forall|s: int| 0 <= s < possible@.len() ==> #[trigger] counts@[s] >= 1,
{
    let mut counts: Vec<usize> = Vec::new();
    let mut s: usize = 0;
    while s < possible.len()
        invariant
            s <= possible@.len(),
            counts@.len() == s,
            forall|t: int|
                0 <= t < s ==> #[trigger] counts@[t] == count_consistent(
                    possible@,
                    strategy_clues(possible@[t]@, strat@),
                ),
        decreases possible@.len() - s,
    {
        let filters = strategy_filters(possible[s], strat);
        counts.push(remaining_count(possible, filters.as_slice()));
        s += 1;
    }
    proof {
        if forall|g: int, p: int| 0 <= g < strat@.len() && 0 <= p < 5 ==> #[trigger] strat@[g]@[p] != 0 {
            assert forall|t: int| 0 <= t < possible@.len() implies #[trigger] counts@[t] >= 1 by {
                lemma_secret_remains(possible@, strat@, t);
            }
        }
    }
    counts
}

/// A word that is consistent with the clues is counted.
proof fn lemma_count_consistent_positive(words: Seq<Word>, clue_sets: Seq<Seq<Filter>>, k: int)
    requires
        0 <= k < words.len(),
        admits_every(words[k]@, clue_sets),
    ensures
        count_consistent(words, clue_sets) >= 1,
    decreases words.len(),
{
    if k < words.len() - 1 {
        lemma_count_consistent_positive(words.drop_last(), clue_sets, k);
    }
}

/// The secret word always remains: whatever strategy is played (with no zero
/// letter in its guesses), the count of words consistent with the clues it earns
/// against a possible word is at least one.
pub proof fn lemma_secret_remains(possible: Seq<Word>, strat: Seq<Word>, s: int)
    requires
        0 <= s < possible.len(),
        forall|g: int, p: int| 0 <= g < strat.len() && 0 <= p < 5 ==> #[trigger] strat[g]@[p] != 0,
    ensures
        count_consistent(possible, strategy_clues(possible[s]@, strat)) >= 1,
{
    let secret = possible[s]@;
    let sets = strategy_clues(secret, strat);
    assert forall|g: int| 0 <= g < sets.len() implies admits_all(secret, #[trigger] sets[g]) by {
        assert(forall|p: int| 0 <= p < 5 ==> strat[g]@[p] != 0);
        lemma_secret_passes_own_feedback(secret, strat[g]@);
    }
    lemma_count_consistent_positive(possible, sets, s);
}

/// The clue sets of a strategy are one per guess, in the strategy's order, each
/// the feedback that guess earns against the secret.
pub proof fn lemma_strategy_clues_per_guess(secret: Seq<u8>, strat: Seq<Word>)
    ensures
        strategy_clues(secret, strat).len() == strat.len(),
        forall|g: int| 0 <= g < strat.len() ==> #[trigger] strategy_clues(secret, strat)[g] == feedback(secret, strat[g]@),
{
}

/// A word is consistent with a list of clue sets exactly when it passes each set.
pub proof fn lemma_admits_every_meaning(word: Seq<u8>, clue_sets: Seq<Seq<Filter>>)
    ensures
        admits_every(word, clue_sets) <==> forall|g: int| 0 <= g < clue_sets.len() ==> admits_all(word, #[trigger] clue_sets[g]),
{
}

/// With no clues, every word remains.
pub proof fn lemma_count_without_clues(words: Seq<Word>)
    ensures
        count_consistent(words, Seq::<Seq<Filter>>::empty()) == words.len(),
    decreases words.len(),
{
    if words.len() > 0 {
        lemma_count_without_clues(words.drop_last());
    }
}

/// Fewer words remain under stronger clues: where every word consistent with
/// `strong` is consistent with `weak`, `strong` leaves at most as many words.
proof fn lemma_count_monotone(words: Seq<Word>, strong: Seq<Seq<Filter>>, weak: Seq<Seq<Filter>>)
    requires
        forall|w: Seq<u8>| admits_every(w, strong) ==> admits_every(w, weak),
    ensures
        count_consistent(words, strong) <= count_consistent(words, weak),
    decreases words.len(),
{
    if words.len() > 0 {
        lemma_count_monotone(words.drop_last(), strong, weak);
    }
}

/// Every clue set counts: the words consistent with all the clue sets are at most
/// those consistent with any one of them, and with any prefix of them.
pub proof fn lemma_count_each_clue_set(words: Seq<Word>, clue_sets: Seq<Seq<Filter>>, g: int, n: int)
    requires
        0 <= g < clue_sets.len(),
        0 <= n <= clue_sets.len(),
    ensures
        count_consistent(words, clue_sets) <= count_consistent(words, seq![clue_sets[g]]),
        count_consistent(words, clue_sets) <= count_consistent(words, clue_sets.take(n)),
        count_consistent(words, clue_sets) <= words.len(),
{
    assert forall|w: Seq<u8>| admits_every(w, clue_sets) implies admits_every(w, seq![clue_sets[g]]) by {
        assert(admits_all(w, clue_sets[g]));
    }
    lemma_count_monotone(words, clue_sets, seq![clue_sets[g]]);
    assert forall|w: Seq<u8>| admits_every(w, clue_sets) implies admits_every(w, clue_sets.take(n)) by {
        assert forall|h: int| 0 <= h < clue_sets.take(n).len() implies admits_all(w, #[trigger] clue_sets.take(n)[h]) by {
            assert(clue_sets.take(n)[h] == clue_sets[h]);
        }
    }
    lemma_count_monotone(words, clue_sets, clue_sets.take(n));
    lemma_count_consistent_bound(words, clue_sets);
}

/// The count is the number of words, position by position, that pass every clue
/// set: adding a word adds one exactly when it passes them all.
pub proof fn lemma_count_push(words: Seq<Word>, w: Word, clue_sets: Seq<Seq<Filter>>)
    ensures
        count_consistent(words.push(w), clue_sets) == count_consistent(words, clue_sets) + if (forall|g: int|
            0 <= g < clue_sets.len() ==> admits_all(w@, #[trigger] clue_sets[g])) {
            1int
        } else {
            0int
        },
{
    assert(words.push(w).drop_last() =~= words);
}

} // verus!
