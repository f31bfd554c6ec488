use wordle_strats::strategy::{remaining_count, strategy_filters, strategy_remaining};
use wordle_strats::utils::guess_to_filters;
use wordle_strats::words::Word;

fn possible() -> Vec<Word> {
    vec![*b"cigar", *b"rebut", *b"sissy", *b"humph", *b"awake"]
}

#[test]
fn filters_follow_the_strategy() {
    let strat: Vec<Word> = vec![*b"roate", *b"sissy"];
    let secret: Word = *b"cigar";
    assert_eq!(
        strategy_filters(secret, &strat),
        vec![guess_to_filters(secret, strat[0]), guess_to_filters(secret, strat[1])]
    );
}

#[test]
fn guessing_the_secret_leaves_only_it() {
    let words = possible();
    let filters = strategy_filters(*b"rebut", &[*b"rebut"]);
    assert_eq!(remaining_count(&words, &filters), 1);
}

#[test]
fn no_clues_leave_everything() {
    let words = possible();
    assert_eq!(remaining_count(&words, &[]), 5);
}

#[test]
fn counts_per_secret() {
    let words = possible();
    // "zzzzz" reveals nothing, so every word remains for every secret
    assert_eq!(strategy_remaining(&words, &[*b"zzzzz"]), vec![5, 5, 5, 5, 5]);
    // guessing "cigar": against "cigar" only it remains; against the others,
    // each keeps the words that share its clues
    let counts = strategy_remaining(&words, &[*b"cigar"]);
    assert_eq!(counts[0], 1);
    assert!(counts.iter().all(|&c| c >= 1));
}
