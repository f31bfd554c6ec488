use wordle_strats::utils::Filter::{self, Correct, Exclude, TooMany, WrongLoc};
use wordle_strats::utils::{guess_to_filters, strat_strings, word_passes_filters};
use wordle_strats::words::Word;

#[test]
fn test_all_correct() {
    let word = [0; 5];
    let guess = word;
    let feedback = guess_to_filters(word, guess);
    assert_eq!(feedback, [Correct(0); 5]);
}

#[test]
fn test_all_exclude() {
    let word = [0; 5];
    let guess = [1; 5];
    let feedback = guess_to_filters(word, guess);
    assert_eq!(feedback, [Exclude(1); 5]);
}

#[test]
fn test_wrong_loc() {
    let word = [1, 0, 0, 0, 0];
    let guess = [0, 1, 0, 0, 0];
    let feedback = guess_to_filters(word, guess);
    assert_eq!(
        feedback,
        [WrongLoc(0), WrongLoc(1), Correct(0), Correct(0), Correct(0)]
    );
}

#[test]
fn test_too_many() {
    let word = [1, 0, 0, 0, 0];
    let guess = [1, 1, 1, 0, 0];
    let feedback = guess_to_filters(word, guess);
    assert_eq!(
        feedback,
        [
            Correct(1),
            TooMany(1, 1),
            TooMany(1, 1),
            Correct(0),
            Correct(0)
        ]
    );
}

#[test]
fn default_filter_excludes_zero() {
    assert_eq!(Filter::default(), Exclude(0));
}

#[test]
fn feedback_on_real_words() {
    // secret "cigar", guess "roate": r wrong place, o absent, a wrong place, t absent, e absent
    let secret: Word = *b"cigar";
    let guess: Word = *b"roate";
    assert_eq!(
        guess_to_filters(secret, guess),
        [WrongLoc(b'r'), Exclude(b'o'), WrongLoc(b'a'), Exclude(b't'), Exclude(b'e')]
    );
}

#[test]
fn feedback_claims_left_to_right() {
    // the first 'e' claims the secret's only 'e' before the second 'e' finds it in
    // place; the last 'e' finds none left
    let secret: Word = *b"hello";
    let guess: Word = *b"eerie";
    assert_eq!(
        guess_to_filters(secret, guess),
        [WrongLoc(b'e'), Correct(b'e'), Exclude(b'r'), Exclude(b'i'), TooMany(b'e', 1)]
    );
}

#[test]
fn guessing_the_secret_is_all_correct() {
    let secret: Word = *b"crane";
    assert_eq!(
        guess_to_filters(secret, secret),
        [Correct(b'c'), Correct(b'r'), Correct(b'a'), Correct(b'n'), Correct(b'e')]
    );
}

#[test]
fn secret_passes_its_own_feedback() {
    let words: [Word; 4] = [*b"cigar", *b"hello", *b"eerie", *b"llama"];
    for secret in words {
        for guess in words {
            assert!(word_passes_filters(secret, guess_to_filters(secret, guess)));
        }
    }
}

#[test]
fn passes_each_kind_of_clue() {
    let word: Word = *b"hello";
    assert!(word_passes_filters(word, [Correct(b'h'), Exclude(b'x'), Exclude(b'y'), Exclude(b'z'), Exclude(b'q')]));
    assert!(!word_passes_filters(word, [Correct(b'e'), Exclude(b'x'), Exclude(b'y'), Exclude(b'z'), Exclude(b'q')]));
    assert!(!word_passes_filters(word, [Exclude(b'x'), Exclude(b'l'), Exclude(b'y'), Exclude(b'z'), Exclude(b'q')]));
    assert!(word_passes_filters(word, [WrongLoc(b'e'), Exclude(b'x'), Exclude(b'y'), Exclude(b'z'), Exclude(b'q')]));
    assert!(!word_passes_filters(word, [WrongLoc(b'h'), Exclude(b'x'), Exclude(b'y'), Exclude(b'z'), Exclude(b'q')]));
    assert!(!word_passes_filters(word, [WrongLoc(b'a'), Exclude(b'x'), Exclude(b'y'), Exclude(b'z'), Exclude(b'q')]));
    assert!(word_passes_filters(word, [TooMany(b'l', 2), Exclude(b'x'), Exclude(b'y'), Exclude(b'z'), Exclude(b'q')]));
    assert!(!word_passes_filters(word, [TooMany(b'l', 1), Exclude(b'x'), Exclude(b'y'), Exclude(b'z'), Exclude(b'q')]));
}

#[test]
fn zero_letter_counts_the_zero_lanes() {
    // the three zero lanes make Exclude(0) reject every word, and add three to a count of 0
    let word: Word = *b"hello";
    assert!(!word_passes_filters(word, [Exclude(0), Exclude(b'x'), Exclude(b'y'), Exclude(b'z'), Exclude(b'q')]));
    assert!(!word_passes_filters(word, [TooMany(0, 2), Exclude(b'x'), Exclude(b'y'), Exclude(b'z'), Exclude(b'q')]));
    assert!(word_passes_filters(word, [TooMany(0, 3), Exclude(b'x'), Exclude(b'y'), Exclude(b'z'), Exclude(b'q')]));
    // so a secret fails the clues of a guess made of zero letters
    let ones: Word = [1; 5];
    assert!(!word_passes_filters(ones, guess_to_filters(ones, [0; 5])));
}

#[test]
fn strat_strings_spell_the_words() {
    let strat: [Word; 2] = [*b"carse", *b"doilt"];
    assert_eq!(strat_strings(&strat), ["carse", "doilt"]);
}

#[test]
fn guess_passes_own_feedback_only_when_secret() {
    let words: [Word; 5] = [*b"cigar", *b"hello", *b"eerie", *b"llama", *b"lolly"];
    for secret in words {
        for guess in words {
            assert_eq!(
                word_passes_filters(guess, guess_to_filters(secret, guess)),
                guess == secret
            );
        }
    }
    // also with zero letters
    assert!(!word_passes_filters([0; 5], guess_to_filters([1; 5], [0; 5])));
    assert!(word_passes_filters([0; 5], guess_to_filters([0; 5], [0; 5])));
}

#[test]
fn clue_text_shows_the_letter() {
    assert_eq!(Exclude(b'a').to_debug_string(), "Exclude('a')");
    assert_eq!(WrongLoc(b'r').to_debug_string(), "WrongLoc('r')");
    assert_eq!(TooMany(b'e', 1).to_debug_string(), "TooMany('e', 1)");
    assert_eq!(TooMany(b'e', 12).to_debug_string(), "TooMany('e', 12)");
    assert_eq!(Correct(b'z').to_debug_string(), "Correct('z')");
    assert_eq!(Exclude(0).to_debug_string(), "Exclude('\\0')");
}
