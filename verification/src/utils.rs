//! Feedback on a guess, and the check of a word against that feedback.

use vstd::prelude::*;

use vstd::string::{StringExecFns, StringSliceAdditionalSpecFns};
use vstd::utf8::valid_utf8;

use crate::words::{word_to_string, Word};

verus! {

/// What one letter of a guess revealed about the secret word.
///
/// The derived `Debug` shows a letter as its number, as in `TooMany(101, 1)`;
/// `to_debug_string` gives the text with the letter as a quoted character, as in
/// `TooMany('e', 1)`.
#[derive(Clone, Copy, PartialEq, Eq, Structural, Debug)]
pub enum Filter {
    /// The letter does not occur in the secret word.
    Exclude(u8),
    /// The letter occurs in the secret word, but not at this position.
    WrongLoc(u8),
    /// The letter occurs in the secret word exactly as many times as the count says,
    /// and every occurrence is already accounted for by other clues.
    TooMany(u8, u8),
    /// The letter stands at this position in the secret word.
    Correct(u8),
}

impl Default for Filter {
    fn default() -> (f: Self)
        ensures
            f == Filter::Exclude(0),
    {
        Filter::Exclude(0)
    }
}

/// What `{:?}` writes for a character: the character quoted and escaped.
pub uninterp spec fn char_debug_text(c: char) -> Seq<char>;

/// The decimal digit `d`.
pub open spec fn digit_char(d: nat) -> char {
    ('0' as nat + d) as char
}

/// `n` written in decimal, without leading zeros.
pub open spec fn decimal_text(n: nat) -> Seq<char>
    decreases n,
{
    if n < 10 {
        seq![digit_char(n)]
    } else {
        decimal_text(n / 10) + seq![digit_char(n % 10)]
    }
}

/// `<char as Debug>::fmt`, through `format!("{:?}")`. Its result is named
/// `char_debug_text`, as the escaping rules for the whole of Unicode take more
/// than a few lines; for an ASCII letter or digit, which the escaping leaves
/// alone, the result is that character between single quotes.
#[verifier::external_body]
fn char_debug(c: char) -> (s: String)
    ensures
        s@ == char_debug_text(c),
        ('a' <= c <= 'z' || 'A' <= c <= 'Z' || '0' <= c <= '9') ==> s@ == seq!['\'', c, '\''],
{
    format!("{:?}", c)
}

/// The decimal digit `d` as text.
fn digit_str(d: u8) -> (s: &'static str)
    requires
        d < 10,
    ensures
        s@ == seq![digit_char(d as nat)],
{
    proof {
        reveal_strlit("0");
        reveal_strlit("1");
        reveal_strlit("2");
        reveal_strlit("3");
        reveal_strlit("4");
        reveal_strlit("5");
        reveal_strlit("6");
        reveal_strlit("7");
        reveal_strlit("8");
        reveal_strlit("9");
    }
    match d {
        0 => "0",
        1 => "1",
        2 => "2",
        3 => "3",
        4 => "4",
        5 => "5",
        6 => "6",
        7 => "7",
        8 => "8",
        _ => "9",
    }
}

/// `n` written in decimal.
fn u8_decimal(n: u8) -> (s: String)
    ensures
        s@ == decimal_text(n as nat),
{
    reveal_with_fuel(decimal_text, 3);
    let mut s = String::from_str(digit_str(n % 10));
    if n >= 10 {
        let mut t = String::from_str(digit_str((n / 10) % 10));
        if n >= 100 {
            let mut u = String::from_str(digit_str(n / 100));
            u.append(t.as_str());
            t = u;
        }
        t.append(s.as_str());
        s = t;
    }
    s
}

/// Whether byte `l` is an ASCII letter or digit.
pub open spec fn ascii_alphanumeric(l: u8) -> bool {
    (97 <= l <= 122) || (65 <= l <= 90) || (48 <= l <= 57)
}

/// The text of a clue whose letter is an ASCII letter or digit: the letter stands
/// between single quotes, as in `TooMany('e', 1)`.
pub open spec fn filter_plain_text(f: Filter) -> Seq<char> {
    match f {
        Filter::Exclude(l) => "Exclude("@ + seq!['\'', l as char, '\''] + ")"@,
        Filter::WrongLoc(l) => "WrongLoc("@ + seq!['\'', l as char, '\''] + ")"@,
        Filter::TooMany(l, c) => "TooMany("@ + seq!['\'', l as char, '\''] + ", "@ + decimal_text(
            c as nat,
        ) + ")"@,
        Filter::Correct(l) => "Correct("@ + seq!['\'', l as char, '\''] + ")"@,
    }
}

/// A clue as text, its letter shown as a quoted character, as in
/// `TooMany('e', 1)`.
pub open spec fn filter_text(f: Filter) -> Seq<char> {
    match f {
        Filter::Exclude(l) => "Exclude("@ + char_debug_text(l as char) + ")"@,
        Filter::WrongLoc(l) => "WrongLoc("@ + char_debug_text(l as char) + ")"@,
        Filter::TooMany(l, c) => "TooMany("@ + char_debug_text(l as char) + ", "@ + decimal_text(
            c as nat,
        ) + ")"@,
        Filter::Correct(l) => "Correct("@ + char_debug_text(l as char) + ")"@,
    }
}

impl Filter {
    /// The clue as text, its letter shown as a quoted character.
    pub fn to_debug_string(&self) -> (s: String)
        ensures
            s@ == filter_text(*self),
            ascii_alphanumeric(clue_letter(*self)) ==> s@ == filter_plain_text(*self),
    {
        match *self {
            Filter::Exclude(l) => {
                let mut s = String::from_str("Exclude(");
                s.append(char_debug(l as char).as_str());
                s.append(")");
                s
            },
            Filter::WrongLoc(l) => {
                let mut s = String::from_str("WrongLoc(");
                s.append(char_debug(l as char).as_str());
                s.append(")");
                s
            },
            Filter::TooMany(l, c) => {
                let mut s = String::from_str("TooMany(");
                s.append(char_debug(l as char).as_str());
                s.append(", ");
                s.append(u8_decimal(c).as_str());
                s.append(")");
                s
            },
            Filter::Correct(l) => {
                let mut s = String::from_str("Correct(");
                s.append(char_debug(l as char).as_str());
                s.append(")");
                s
            },
        }
    }
}

/// The letter a clue speaks of.
pub open spec fn clue_letter(f: Filter) -> u8 {
    match f {
        Filter::Exclude(l) => l,
        Filter::WrongLoc(l) => l,
        Filter::TooMany(l, _) => l,
        Filter::Correct(l) => l,
    }
}

/// The words of a strategy as text, in order. Every word must be valid UTF-8.
pub fn strat_strings<const N: usize>(words: &[Word; N]) -> (output: [&str; N])
    requires
        forall|i: int| 0 <= i < N ==> valid_utf8((#[trigger] words@[i])@),
    ensures
        forall|i: int| 0 <= i < N ==> (#[trigger] output@[i]).spec_bytes() == words@[i]@,
{
    let mut output: [&str; N] = [""; N];
    let mut i: usize = 0;
    while i < N
        invariant
            i <= N,
            forall|p: int| 0 <= p < N ==> valid_utf8((#[trigger] words@[p])@),
            forall|p: int| 0 <= p < i ==> (#[trigger] output@[p]).spec_bytes() == words@[p]@,
        decreases N - i,
    {
        output[i] = word_to_string(&words[i]);
        i += 1;
    }
    output
}

/// How many times `letter` occurs in `s`.
pub open spec fn letter_count(s: Seq<u8>, letter: u8) -> nat
    decreases s.len(),
{
    if s.len() == 0 {
        0
    } else {
        letter_count(s.drop_last(), letter) + if s.last() == letter { 1nat } else { 0nat }
    }
}

/// A letter occurs at most as often as the sequence is long.
pub proof fn lemma_letter_count_bound(s: Seq<u8>, letter: u8)
    ensures
        letter_count(s, letter) <= s.len(),
    decreases s.len(),
{
    if s.len() > 0 {
        lemma_letter_count_bound(s.drop_last(), letter);
    }
}

/// The first position at or after `j` where `secret` holds `letter` and which no
/// earlier clue has claimed.
pub open spec fn first_unclaimed(secret: Seq<u8>, claimed: Seq<bool>, letter: u8, j: int) -> Option<int>
    decreases secret.len() - j,
{
    if j < 0 || j >= secret.len() {
        None
    } else if secret[j] == letter && !claimed[j] {
        Some(j)
    } else {
        first_unclaimed(secret, claimed, letter, j + 1)
    }
}

/// The clues before any letter is looked at: every letter excluded.
pub open spec fn initial_clues(guess: Seq<u8>) -> Seq<Filter> {
    Seq::new(guess.len(), |i: int| Filter::Exclude(guess[i]))
}

/// No position of the secret word claimed yet.
pub open spec fn initial_claims(secret: Seq<u8>) -> Seq<bool> {
    Seq::new(secret.len(), |i: int| false)
}

/// The clue for position `i` of the guess, given the clues and claims so far.
/// A letter in place is `Correct` and claims its position. Otherwise the first
/// unclaimed occurrence of the letter in the secret is claimed and the clue is
/// `WrongLoc`; with none left, the clue is `TooMany` with the number of
/// occurrences, or stays `Exclude` where the letter does not occur at all.
pub open spec fn clue_step(
    secret: Seq<u8>,
    guess: Seq<u8>,
    i: int,
    state: (Seq<Filter>, Seq<bool>),
) -> (Seq<Filter>, Seq<bool>) {
    let (clues, claimed) = state;
    let letter = guess[i];
    if letter == secret[i] {
        (clues.update(i, Filter::Correct(letter)), claimed.update(i, true))
    } else {
        match first_unclaimed(secret, claimed, letter, 0) {
            Some(j) => (clues.update(i, Filter::WrongLoc(letter)), claimed.update(j, true)),
            None => if letter_count(secret, letter) > 0 {
                (clues.update(i, Filter::TooMany(letter, letter_count(secret, letter) as u8)), claimed)
            } else {
                (clues, claimed)
            },
        }
    }
}

/// Clues and claims once the first `n` letters of the guess have been looked at,
/// from left to right.
pub open spec fn feedback_state(secret: Seq<u8>, guess: Seq<u8>, n: nat) -> (Seq<Filter>, Seq<bool>)
    decreases n,
{
    if n == 0 {
        (initial_clues(guess), initial_claims(secret))
    } else {
        clue_step(secret, guess, n - 1, feedback_state(secret, guess, (n - 1) as nat))
    }
}

/// The clues that `guess` earns against `secret`.
pub open spec fn feedback(secret: Seq<u8>, guess: Seq<u8>) -> Seq<Filter> {
    feedback_state(secret, guess, guess.len()).0
}

/// The clues for a guess against a secret word, letter by letter.
pub fn guess_to_filters(secret: Word, guess: Word) -> (out: [Filter; 5])
    ensures
        out@ == feedback(secret@, guess@),
        forall|p: int| 0 <= p < 5 ==> clue_letter(#[trigger] out@[p]) == guess[p],
        forall|p: int| 0 <= p < 5 ==> ((#[trigger] out@[p] is Correct) <==> guess[p] == secret[p]),
{
    proof {
        lemma_feedback_letters(secret@, guess@);
    }
    let mut out: [Filter; 5] = [
        Filter::Exclude(guess[0]),
        Filter::Exclude(guess[1]),
        Filter::Exclude(guess[2]),
        Filter::Exclude(guess[3]),
        Filter::Exclude(guess[4]),
    ];
    let mut used: [bool; 5] = [false; 5];
    assert(out@ =~= initial_clues(guess@));
    assert(used@ =~= initial_claims(secret@));
    let mut i: usize = 0;
    while i < 5
        invariant
            i <= 5,
            (out@, used@) == feedback_state(secret@, guess@, i as nat),
        decreases 5 - i,
    {
        let ghost clues0 = out@;
        let ghost used0 = used@;
        let letter = guess[i];
        if letter == secret[i] {
            used[i] = true;
            out[i] = Filter::Correct(letter);
        } else {
            let mut count_eq: u8 = 0;
            let mut found = false;
            let mut j: usize = 0;
            while j < 5 && !found
                invariant
                    j <= 5,
                    i < 5,
                    clues0.len() == 5,
                    used0.len() == 5,
                    !found ==> out@ == clues0 && used@ == used0,
                    !found ==> first_unclaimed(secret@, used0, letter, 0)
                        == first_unclaimed(secret@, used0, letter, j as int),
                    !found ==> count_eq == letter_count(secret@.take(j as int), letter),
                    found ==> j >= 1 && first_unclaimed(secret@, used0, letter, 0) == Some((j - 1) as int)
                        && out@ == clues0.update(i as int, Filter::WrongLoc(letter))
                        && used@ == used0.update(j - 1, true),
                decreases 5 - j,
            {
                proof {
                    assert(secret@.take(j + 1).drop_last() =~= secret@.take(j as int));
                    lemma_letter_count_bound(secret@.take(j as int), letter);
                }
                if secret[j] == letter {
                    if !used[j] {
                        out[i] = Filter::WrongLoc(letter);
                        used[j] = true;
                        found = true;
                    } else {
                        count_eq += 1;
                    }
                }
                j += 1;
            }
            if !found {
                assert(secret@.take(5) =~= secret@);
                if count_eq > 0 {
                    out[i] = Filter::TooMany(letter, count_eq);
                }
            }
        }
        i += 1;
    }
    out
}

/// The eight lanes a word is compared in: three lanes that hold zero, then the
/// five letters of the word.
pub open spec fn lanes(word: Seq<u8>) -> Seq<u8> {
    seq![0u8, 0u8, 0u8] + word
}

/// Whether `word` is consistent with clue `f` standing at position `i`.
/// `Exclude` and `TooMany` count the letter over all eight lanes, so the zero
/// letter always counts three more than the word holds.
pub open spec fn clue_admits(word: Seq<u8>, i: int, f: Filter) -> bool {
    match f {
        Filter::Exclude(l) => letter_count(lanes(word), l) == 0,
        Filter::WrongLoc(l) => word[i] != l && letter_count(word, l) > 0,
        Filter::TooMany(l, max) => letter_count(lanes(word), l) <= max,
        Filter::Correct(l) => word[i] == l,
    }
}

/// Whether `word` is consistent with every clue, each at its own position.
pub open spec fn admits_all(word: Seq<u8>, filters: Seq<Filter>) -> bool {
    forall|i: int| 0 <= i < filters.len() ==> clue_admits(word, i, #[trigger] filters[i])
}

/// The lanes of a word.
fn word_lanes(word: &Word) -> (out: [u8; 8])
    ensures
        out@ == lanes(word@),
{
    let out: [u8; 8] = [0, 0, 0, word[0], word[1], word[2], word[3], word[4]];
    assert(out@ =~= lanes(word@));
    out
}

/// How many times `letter` occurs in `s`.
fn count_letter(s: &[u8], letter: u8) -> (n: usize)
    ensures
        n == letter_count(s@, letter),
{
    let mut n: usize = 0;
    let mut i: usize = 0;
    while i < s.len()
        invariant
            i <= s@.len(),
            n == letter_count(s@.take(i as int), letter),
        decreases s@.len() - i,
    {
        proof {
            assert(s@.take(i + 1).drop_last() =~= s@.take(i as int));
            lemma_letter_count_bound(s@.take(i as int), letter);
        }
        if s[i] == letter {
            n += 1;
        }
        i += 1;
    }
    assert(s@.take(i as int) =~= s@);
    n
}

/// Whether `word` could be the secret word, given the clues a guess earned.
pub fn word_passes_filters(word: Word, filters: [Filter; 5]) -> (ok: bool)
    ensures
        ok == admits_all(word@, filters@),
{
    let word_lanes = word_lanes(&word);
    let mut i: usize = 0;
    while i < 5
        invariant
            i <= 5,
            word_lanes@ == lanes(word@),
            forall|p: int| 0 <= p < i ==> clue_admits(word@, p, #[trigger] filters@[p]),
        decreases 5 - i,
    {
        match filters[i] {
            Filter::Exclude(letter) => {
                if count_letter(&word_lanes, letter) > 0 {
                    return false;
                }
            },
            Filter::WrongLoc(letter) => {
                if word[i] == letter {
                    return false;
                }
                if count_letter(&word, letter) == 0 {
                    return false;
                }
            },
            Filter::TooMany(letter, max) => {
                if count_letter(&word_lanes, letter) > max as usize {
                    return false;
                }
            },
            Filter::Correct(letter) => {
                if word[i] != letter {
                    return false;
                }
            },
        }
        i += 1;
    }
    true
}

/// Counting over a concatenation adds the counts of the parts.
pub proof fn lemma_letter_count_concat(a: Seq<u8>, b: Seq<u8>, letter: u8)
    ensures
        letter_count(a + b, letter) == letter_count(a, letter) + letter_count(b, letter),
    decreases b.len(),
{
    if b.len() == 0 {
        assert(a + b =~= a);
    } else {
        assert((a + b).drop_last() =~= a + b.drop_last());
        lemma_letter_count_concat(a, b.drop_last(), letter);
    }
}

/// A letter that stands somewhere in `s` is counted at least once.
pub proof fn lemma_letter_count_positive(s: Seq<u8>, letter: u8, k: int)
    requires
        0 <= k < s.len(),
        s[k] == letter,
    ensures
        letter_count(s, letter) > 0,
    decreases s.len(),
{
    if k < s.len() - 1 {
        lemma_letter_count_positive(s.drop_last(), letter, k);
    }
}

/// Over the lanes of a word, the zero letter counts three more than in the word,
/// and every other letter as often as in the word.
pub proof fn lemma_lanes_count(word: Seq<u8>, letter: u8)
    ensures
        letter_count(lanes(word), letter) == letter_count(word, letter) + if letter == 0 {
            3nat
        } else {
            0nat
        },
{
    let pad = seq![0u8, 0u8, 0u8];
    lemma_letter_count_concat(pad, word, letter);
    assert(pad.drop_last().drop_last().drop_last() =~= Seq::<u8>::empty());
    assert(pad.drop_last().drop_last() =~= seq![0u8]);
    assert(pad.drop_last() =~= seq![0u8, 0u8]);
    reveal_with_fuel(letter_count, 4);
    assert(letter_count(pad, letter) == if letter == 0 { 3nat } else { 0nat });
}

/// What `first_unclaimed` finds is an unclaimed position that holds the letter.
pub proof fn lemma_first_unclaimed_found(secret: Seq<u8>, claimed: Seq<bool>, letter: u8, j: int)
    requires
        first_unclaimed(secret, claimed, letter, j) is Some,
    ensures
        ({
            let k = first_unclaimed(secret, claimed, letter, j)->0;
            &&& j <= k < secret.len()
            &&& 0 <= k
            &&& secret[k] == letter
            &&& !claimed[k]
        }),
    decreases secret.len() - j,
{
    if !(j < 0 || j >= secret.len()) && !(secret[j] == letter && !claimed[j]) {
        lemma_first_unclaimed_found(secret, claimed, letter, j + 1);
    }
}

/// After `n` steps the clues and claims keep their lengths, the clues looked at
/// carry the guessed letter and are `Correct` exactly where the letter is in
/// place, and the clues not yet looked at are still `Exclude`.
proof fn lemma_feedback_state_shape(secret: Seq<u8>, guess: Seq<u8>, n: nat)
    requires
        secret.len() == 5,
        guess.len() == 5,
        n <= 5,
    ensures
        ({
            let (clues, claimed) = feedback_state(secret, guess, n);
            &&& clues.len() == 5
            &&& claimed.len() == 5
            &&& forall|p: int| 0 <= p < 5 ==> clue_letter(#[trigger] clues[p]) == guess[p]
            &&& forall|p: int| 0 <= p < n ==> ((#[trigger] clues[p] is Correct) <==> guess[p] == secret[p])
            &&& forall|p: int| n <= p < 5 ==> #[trigger] clues[p] == Filter::Exclude(guess[p])
        }),
    decreases n,
{
    if n > 0 {
        let prev = feedback_state(secret, guess, (n - 1) as nat);
        lemma_feedback_state_shape(secret, guess, (n - 1) as nat);
        let letter = guess[n - 1];
        if letter != secret[n - 1] {
            if let Some(j) = first_unclaimed(secret, prev.1, letter, 0) {
                lemma_first_unclaimed_found(secret, prev.1, letter, 0);
            }
        }
    }
}

/// Every clue speaks of the guessed letter at its position, and a clue is
/// `Correct` exactly where the guess has the secret's letter.
pub proof fn lemma_feedback_letters(secret: Seq<u8>, guess: Seq<u8>)
    requires
        secret.len() == 5,
        guess.len() == 5,
    ensures
        feedback(secret, guess).len() == 5,
        forall|p: int| 0 <= p < 5 ==> clue_letter(#[trigger] feedback(secret, guess)[p]) == guess[p],
        forall|p: int|
            0 <= p < 5 ==> ((#[trigger] feedback(secret, guess)[p] is Correct) <==> guess[p] == secret[p]),
{
    lemma_feedback_state_shape(secret, guess, 5);
}

/// Guessing the secret word itself earns `Correct` at every position.
pub proof fn lemma_guessing_secret_all_correct(secret: Seq<u8>)
    requires
        secret.len() == 5,
    ensures
        feedback(secret, secret) == Seq::new(5, |i: int| Filter::Correct(secret[i])),
{
    lemma_feedback_letters(secret, secret);
    let f = feedback(secret, secret);
    assert forall|p: int| 0 <= p < 5 implies f[p] == Filter::Correct(secret[p]) by {
        assert(f[p] is Correct);
        assert(clue_letter(f[p]) == secret[p]);
    }
    assert(f =~= Seq::new(5, |i: int| Filter::Correct(secret[i])));
}

/// After `n` steps, each clue looked at is one the secret word itself satisfies.
proof fn lemma_feedback_state_admits(secret: Seq<u8>, guess: Seq<u8>, n: nat)
    requires
        secret.len() == 5,
        guess.len() == 5,
        n <= 5,
        forall|p: int| 0 <= p < 5 ==> guess[p] != 0,
    ensures
        ({
            let (clues, claimed) = feedback_state(secret, guess, n);
            forall|p: int| 0 <= p < n ==> clue_admits(secret, p, #[trigger] clues[p])
        }),
    decreases n,
{
    if n > 0 {
        let m = (n - 1) as nat;
        let prev = feedback_state(secret, guess, m);
        lemma_feedback_state_admits(secret, guess, m);
        lemma_feedback_state_shape(secret, guess, m);
        let letter = guess[m as int];
        let clues = feedback_state(secret, guess, n).0;
        lemma_lanes_count(secret, letter);
        lemma_letter_count_bound(secret, letter);
        if letter != secret[m as int] {
            match first_unclaimed(secret, prev.1, letter, 0) {
                Some(j) => {
                    lemma_first_unclaimed_found(secret, prev.1, letter, 0);
                    lemma_letter_count_positive(secret, letter, j);
                },
                None => {},
            }
        }
        assert(clue_admits(secret, m as int, clues[m as int]));
        assert forall|p: int| 0 <= p < n implies clue_admits(secret, p, #[trigger] clues[p]) by {
            if p < m {
                assert(clues[p] == prev.0[p]);
            }
        }
    }
}

/// The secret word is always consistent with the clues any guess earns against
/// it, as long as the guess holds no zero letter (which the zero lanes would
/// otherwise count).
pub proof fn lemma_secret_passes_own_feedback(secret: Seq<u8>, guess: Seq<u8>)
    requires
        secret.len() == 5,
        guess.len() == 5,
        forall|p: int| 0 <= p < 5 ==> guess[p] != 0,
    ensures
        admits_all(secret, feedback(secret, guess)),
{
    lemma_feedback_state_admits(secret, guess, 5);
    lemma_feedback_state_shape(secret, guess, 5);
}

/// How many of the first `n` positions of `secret` hold `letter` and are claimed.
pub open spec fn claimed_count(secret: Seq<u8>, claimed: Seq<bool>, letter: u8, n: int) -> nat
    decreases n,
{
    if n <= 0 {
        0
    } else {
        claimed_count(secret, claimed, letter, n - 1) + if secret[n - 1] == letter && claimed[n - 1] {
            1nat
        } else {
            0nat
        }
    }
}

/// Claiming position `x` adds at most one to the count of the letter it holds,
/// and nothing to the count of any other letter.
proof fn lemma_claimed_count_update(secret: Seq<u8>, claimed: Seq<bool>, letter: u8, x: int, n: int)
    requires
        0 <= x < claimed.len(),
        0 <= n <= claimed.len(),
    ensures
        claimed_count(secret, claimed.update(x, true), letter, n) <= claimed_count(secret, claimed, letter, n)
            + if x < n && secret[x] == letter { 1nat } else { 0nat },
    decreases n,
{
    if n > 0 {
        lemma_claimed_count_update(secret, claimed, letter, x, n - 1);
    }
}

/// Where every position that holds the letter is claimed, the claimed count is
/// the letter's count.
proof fn lemma_claimed_count_all(secret: Seq<u8>, claimed: Seq<bool>, letter: u8, n: int)
    requires
        0 <= n <= secret.len(),
        forall|j: int| 0 <= j < n && secret[j] == letter ==> claimed[j],
    ensures
        claimed_count(secret, claimed, letter, n) == letter_count(secret.take(n), letter),
    decreases n,
{
    if n > 0 {
        lemma_claimed_count_all(secret, claimed, letter, n - 1);
        assert(secret.take(n).drop_last() =~= secret.take(n - 1));
    }
}

/// Where `first_unclaimed` finds nothing, no position from `j` on holds the
/// letter unclaimed.
proof fn lemma_first_unclaimed_none(secret: Seq<u8>, claimed: Seq<bool>, letter: u8, j: int)
    requires
        0 <= j,
        first_unclaimed(secret, claimed, letter, j) is None,
    ensures
        forall|k: int| j <= k < secret.len() ==> !(secret[k] == letter && !claimed[k]),
    decreases secret.len() - j,
{
    if j < secret.len() {
        lemma_first_unclaimed_none(secret, claimed, letter, j + 1);
    }
}

/// A prefix holds a letter at most as often as the whole.
proof fn lemma_letter_count_prefix(s: Seq<u8>, a: int, letter: u8)
    requires
        0 <= a <= s.len(),
    ensures
        letter_count(s.take(a), letter) <= letter_count(s, letter),
{
    lemma_letter_count_concat(s.take(a), s.skip(a), letter);
    assert(s.take(a) + s.skip(a) =~= s);
}

/// One more letter of a prefix adds one to its count exactly when it is the letter.
proof fn lemma_letter_count_step(s: Seq<u8>, a: int, letter: u8)
    requires
        0 <= a < s.len(),
    ensures
        letter_count(s.take(a + 1), letter) == letter_count(s.take(a), letter) + if s[a] == letter {
            1nat
        } else {
            0nat
        },
{
    assert(s.take(a + 1).drop_last() =~= s.take(a));
}

/// A `TooMany` clue at position `p` carries the secret's count of its letter,
/// and that count is at most the count of the letter before `p` in the guess.
pub open spec fn too_many_accounted(secret: Seq<u8>, guess: Seq<u8>, p: int, f: Filter) -> bool {
    match f {
        Filter::TooMany(l, c) => c == letter_count(secret, l) && letter_count(secret, l) <= letter_count(
            guess.take(p),
            l,
        ),
        _ => true,
    }
}

/// After `n` steps, no letter has more claimed positions in the secret than it
/// has occurrences among the first `n` letters of the guess, and a `TooMany`
/// clue at `p` carries the secret's count of its letter, which is at most the
/// count of that letter before `p` in the guess.
proof fn lemma_feedback_state_claims(secret: Seq<u8>, guess: Seq<u8>, n: nat)
    requires
        secret.len() == 5,
        guess.len() == 5,
        n <= 5,
    ensures
        ({
            let (clues, claimed) = feedback_state(secret, guess, n);
            &&& forall|l: u8|
                #[trigger] claimed_count(secret, claimed, l, 5) <= letter_count(guess.take(n as int), l)
            &&& forall|p: int| 0 <= p < n ==> too_many_accounted(secret, guess, p, #[trigger] clues[p])
        }),
    decreases n,
{
    let (clues, claimed) = feedback_state(secret, guess, n);
    if n == 0 {
        assert forall|l: u8| #[trigger] claimed_count(secret, claimed, l, 5) <= letter_count(guess.take(0), l) by {
            assert(claimed_count(secret, claimed, l, 5) == 0) by {
                reveal_with_fuel(claimed_count, 6);
            }
        }
    } else {
        let m = (n - 1) as nat;
        let prev = feedback_state(secret, guess, m);
        lemma_feedback_state_claims(secret, guess, m);
        lemma_feedback_state_shape(secret, guess, m);
        let g = guess[m as int];
        assert forall|l: u8| #[trigger] claimed_count(secret, claimed, l, 5) <= letter_count(guess.take(n as int), l) by {
            lemma_letter_count_step(guess, m as int, l);
            assert(claimed_count(secret, prev.1, l, 5) <= letter_count(guess.take(m as int), l));
            if g == secret[m as int] {
                lemma_claimed_count_update(secret, prev.1, l, m as int, 5);
            } else {
                match first_unclaimed(secret, prev.1, g, 0) {
                    Some(j) => {
                        lemma_first_unclaimed_found(secret, prev.1, g, 0);
                        lemma_claimed_count_update(secret, prev.1, l, j, 5);
                    },
                    None => {},
                }
            }
        }
        if g != secret[m as int] && first_unclaimed(secret, prev.1, g, 0) is None {
            lemma_first_unclaimed_none(secret, prev.1, g, 0);
            lemma_claimed_count_all(secret, prev.1, g, 5);
            assert(secret.take(5) =~= secret);
            lemma_letter_count_bound(secret, g);
        }
        assert forall|p: int| 0 <= p < n implies too_many_accounted(secret, guess, p, #[trigger] clues[p]) by {
            if p < m {
                assert(clues[p] == prev.0[p]);
            }
        }
    }
}

/// A guess is consistent with the clues it earns against a secret exactly when
/// it is the secret.
pub proof fn lemma_guess_passes_own_feedback_iff_secret(secret: Seq<u8>, guess: Seq<u8>)
    requires
        secret.len() == 5,
        guess.len() == 5,
    ensures
        admits_all(guess, feedback(secret, guess)) <==> guess == secret,
{
    let f = feedback(secret, guess);
    lemma_feedback_letters(secret, guess);
    if guess == secret {
        lemma_guessing_secret_all_correct(secret);
        assert forall|p: int| 0 <= p < f.len() implies clue_admits(guess, p, #[trigger] f[p]) by {
            assert(f[p] == Filter::Correct(secret[p]));
        }
    } else {
        if forall|k: int| 0 <= k < 5 ==> guess[k] == secret[k] {
            assert(guess =~= secret);
        }
        let p = choose|k: int| 0 <= k < 5 && guess[k] != secret[k];
        let g = guess[p];
        lemma_feedback_state_claims(secret, guess, 5);
        lemma_letter_count_positive(guess, g, p);
        lemma_lanes_count(guess, g);
        assert(f[p] !is Correct);
        assert(clue_letter(f[p]) == g);
        match f[p] {
            Filter::TooMany(l, c) => {
                lemma_letter_count_step(guess, p, g);
                lemma_letter_count_prefix(guess, p + 1, g);
            },
            _ => {},
        }
        assert(!clue_admits(guess, p, f[p]));
    }
}

/// The feedback looks at the letters of the guess from left to right, one step
/// each, starting from every letter excluded and no position of the secret claimed.
pub proof fn lemma_feedback_left_to_right(secret: Seq<u8>, guess: Seq<u8>)
    requires
        secret.len() == 5,
        guess.len() == 5,
    ensures
        ({
            let s0 = (
                Seq::new(5, |i: int| Filter::Exclude(guess[i])),
                Seq::new(5, |i: int| false),
            );
            let s1 = clue_step(secret, guess, 0, s0);
            let s2 = clue_step(secret, guess, 1, s1);
            let s3 = clue_step(secret, guess, 2, s2);
            let s4 = clue_step(secret, guess, 3, s3);
            feedback(secret, guess) == clue_step(secret, guess, 4, s4).0
        }),
{
    assert(initial_clues(guess) =~= Seq::new(5, |i: int| Filter::Exclude(guess[i])));
    assert(initial_claims(secret) =~= Seq::new(5, |i: int| false));
    reveal_with_fuel(feedback_state, 6);
}

/// Counting a letter is the length of the word filtered down to that letter.
pub proof fn lemma_letter_count_is_filter_len(s: Seq<u8>, letter: u8)
    ensures
        letter_count(s, letter) == s.filter(|c: u8| c == letter).len(),
    decreases s.len(),
{
    reveal_with_fuel(Seq::<u8>::filter, 1);
    if s.len() > 0 {
        lemma_letter_count_is_filter_len(s.drop_last(), letter);
    }
}

/// A letter is counted at least once exactly when the sequence holds it.
pub proof fn lemma_letter_count_contains(s: Seq<u8>, letter: u8)
    ensures
        letter_count(s, letter) > 0 <==> s.contains(letter),
    decreases s.len(),
{
    if s.contains(letter) {
        let k = choose|k: int| 0 <= k < s.len() && s[k] == letter;
        lemma_letter_count_positive(s, letter, k);
    }
    if s.len() > 0 && letter_count(s, letter) > 0 {
        if s.last() == letter {
            assert(s[s.len() - 1] == letter);
        } else {
            lemma_letter_count_contains(s.drop_last(), letter);
            let k = choose|k: int| 0 <= k < s.len() - 1 && s.drop_last()[k] == letter;
            assert(s[k] == letter);
        }
    }
}

/// What each clue asks of a word: `Exclude` that the letter occurs nowhere in
/// the word (and is not the zero letter, which the zero lanes always hold);
/// `WrongLoc` that the letter occurs in the word but not at the clue's position;
/// `TooMany` that the letter occurs at most the given number of times (three more
/// for the zero letter); `Correct` that the letter stands at the clue's position.
pub proof fn lemma_clue_meaning(word: Seq<u8>, i: int, f: Filter)
    ensures
        clue_admits(word, i, f) <==> match f {
            Filter::Exclude(l) => l != 0 && !word.contains(l),
            Filter::WrongLoc(l) => word[i] != l && word.contains(l),
            Filter::TooMany(l, max) => word.filter(|c: u8| c == l).len() + (if l == 0 {
                3int
            } else {
                0int
            }) <= max,
            Filter::Correct(l) => word[i] == l,
        },
{
    let l = clue_letter(f);
    lemma_lanes_count(word, l);
    lemma_letter_count_contains(word, l);
    lemma_letter_count_is_filter_len(word, l);
}

/// A word passes a set of clues exactly when it satisfies every clue, each as
/// `lemma_clue_meaning` reads it.
pub proof fn lemma_passes_meaning(word: Seq<u8>, filters: Seq<Filter>)
    ensures
        admits_all(word, filters) <==> forall|i: int|
            0 <= i < filters.len() ==> match #[trigger] filters[i] {
                Filter::Exclude(l) => l != 0 && !word.contains(l),
                Filter::WrongLoc(l) => word[i] != l && word.contains(l),
                Filter::TooMany(l, max) => word.filter(|c: u8| c == l).len() + (if l == 0 {
                    3int
                } else {
                    0int
                }) <= max,
                Filter::Correct(l) => word[i] == l,
            },
{
    assert forall|i: int| 0 <= i < filters.len() implies (clue_admits(word, i, #[trigger] filters[i]) <==> match filters[i] {
        Filter::Exclude(l) => l != 0 && !word.contains(l),
        Filter::WrongLoc(l) => word[i] != l && word.contains(l),
        Filter::TooMany(l, max) => word.filter(|c: u8| c == l).len() + (if l == 0 {
            3int
        } else {
            0int
        }) <= max,
        Filter::Correct(l) => word[i] == l,
    }) by {
        lemma_clue_meaning(word, i, filters[i]);
    }
}

/// An excluded letter rules out every word that holds it, wherever it stands in
/// the word and wherever the clue stands among the clues.
pub proof fn lemma_exclude_rejects_anywhere(word: Seq<u8>, filters: Seq<Filter>, i: int, j: int, l: u8)
    requires
        0 <= i < filters.len(),
        filters[i] == Filter::Exclude(l),
        0 <= j < word.len(),
        word[j] == l,
    ensures
        !admits_all(word, filters),
{
    lemma_clue_meaning(word, i, filters[i]);
    assert(word.contains(l));
}

/// A `TooMany` clue on a non-zero letter admits every word that holds the letter
/// at most the given number of times, and no other.
pub proof fn lemma_too_many_admits_up_to(word: Seq<u8>, i: int, l: u8, max: u8)
    requires
        l != 0,
    ensures
        clue_admits(word, i, Filter::TooMany(l, max)) <==> word.filter(|c: u8| c == l).len() <= max,
{
    lemma_clue_meaning(word, i, Filter::TooMany(l, max));
}

/// `first_unclaimed` finds the least position at or after `j` that holds the
/// letter unclaimed, and finds nothing exactly when there is none.
pub proof fn lemma_first_unclaimed_least(secret: Seq<u8>, claimed: Seq<bool>, letter: u8, j: int)
    requires
        0 <= j,
    ensures
        match first_unclaimed(secret, claimed, letter, j) {
            Some(k) => j <= k < secret.len() && secret[k] == letter && !claimed[k] && forall|q: int|
                j <= q < k ==> !(secret[q] == letter && !claimed[q]),
            None => forall|q: int| j <= q < secret.len() ==> !(secret[q] == letter && !claimed[q]),
        },
    decreases secret.len() - j,
{
    if j < secret.len() && !(secret[j] == letter && !claimed[j]) {
        lemma_first_unclaimed_least(secret, claimed, letter, j + 1);
    }
}

/// One step of the feedback, read in terms of the secret and the claims alone: a
/// letter in place becomes `Correct` and claims its position; otherwise, where
/// some position of the secret holds the letter unclaimed, the least such
/// position is claimed and the clue is `WrongLoc`; otherwise nothing is claimed,
/// and the clue is `TooMany` with the number of times the secret holds the letter,
/// or stays as it was where the secret does not hold it. No other clue changes.
pub proof fn lemma_clue_step_meaning(
    secret: Seq<u8>,
    guess: Seq<u8>,
    i: int,
    clues: Seq<Filter>,
    claimed: Seq<bool>,
)
    requires
        secret.len() == 5,
        guess.len() == 5,
        clues.len() == 5,
        claimed.len() == 5,
        0 <= i < 5,
    ensures
        ({
            let (new_clues, new_claimed) = clue_step(secret, guess, i, (clues, claimed));
            let l = guess[i];
            &&& new_clues.len() == 5
            &&& forall|p: int| 0 <= p < 5 && p != i ==> new_clues[p] == clues[p]
            &&& l == secret[i] ==> new_clues[i] == Filter::Correct(l) && new_claimed == claimed.update(i, true)
            &&& l != secret[i] ==> (exists|k: int| 0 <= k < 5 && secret[k] == l && !claimed[k]) ==> exists|k: int|
                0 <= k < 5 && secret[k] == l && !claimed[k] && (forall|q: int|
                    0 <= q < k ==> !(secret[q] == l && !claimed[q])) && new_claimed == claimed.update(k, true)
                    && new_clues[i] == Filter::WrongLoc(l)
            &&& l != secret[i] ==> !(exists|k: int| 0 <= k < 5 && secret[k] == l && !claimed[k]) ==> new_claimed
                == claimed && (if secret.contains(l) {
                new_clues[i] == Filter::TooMany(l, secret.filter(|c: u8| c == l).len() as u8)
            } else {
                new_clues[i] == clues[i]
            })
        }),
{
    let l = guess[i];
    lemma_first_unclaimed_least(secret, claimed, l, 0);
    lemma_letter_count_contains(secret, l);
    lemma_letter_count_is_filter_len(secret, l);
    if l != secret[i] {
        match first_unclaimed(secret, claimed, l, 0) {
            Some(k) => {
                assert(secret[k] == l && !claimed[k]);
            },
            None => {},
        }
    }
}

} // verus!
