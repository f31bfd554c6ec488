//! Word lists: a list is text with one five-letter word per line.

use vstd::arithmetic::power::pow;
use vstd::prelude::*;
use vstd::string::StringSliceAdditionalSpecFns;
use vstd::utf8::valid_utf8;

verus! {

/// A five-letter word, one byte per letter.
pub type Word = [u8; 5];

/// The byte that ends each line of a word list.
pub const NEWLINE: u8 = 10u8;

/// The number of line ends in `s`.
pub open spec fn newline_count(s: Seq<u8>) -> nat
    decreases s.len(),
{
    if s.len() == 0 {
        0
    } else {
        newline_count(s.drop_last()) + if s.last() == NEWLINE { 1nat } else { 0nat }
    }
}

proof fn lemma_newline_count_bound(s: Seq<u8>)
    ensures
        newline_count(s) <= s.len(),
    decreases s.len(),
{
    if s.len() > 0 {
        lemma_newline_count_bound(s.drop_last());
    }
}

/// The number of words in a word list: the number of line ends in its text.
pub fn word_count(text: &[u8]) -> (n: usize)
    ensures
        n == newline_count(text@),
{
    let mut n: usize = 0;
    let mut i: usize = 0;
    assert(text@.take(0) =~= Seq::<u8>::empty());
    while i < text.len()
        invariant
            i <= text@.len(),
            n == newline_count(text@.take(i as int)),
        decreases text@.len() - i,
    {
        proof {
            assert(text@.take(i + 1).drop_last() =~= text@.take(i as int));
            lemma_newline_count_bound(text@.take(i as int));
        }
        if text[i] == NEWLINE {
            n += 1;
        }
        i += 1;
    }
    assert(text@.take(i as int) =~= text@);
    n
}

/// The words of a word list: word `i` is the five bytes that start at byte `6 * i`
/// (each word is followed by its line end).
pub fn parse_words(text: &[u8]) -> (words: Vec<Word>)
    requires
        6 * newline_count(text@) <= text@.len() + 1,
    ensures
        words@.len() == newline_count(text@),
        forall|i: int|
            0 <= i < words@.len() ==> (#[trigger] words@[i])@ == text@.subrange(6 * i, 6 * i + 5),
{
    let n = word_count(text);
    let len = text.len();
    let mut words: Vec<Word> = Vec::new();
    let mut i: usize = 0;
    while i < n
        invariant
            i <= n,
            n == newline_count(text@),
            6 * n <= text@.len() + 1,
            len == text@.len(),
            words@.len() == i,
            forall|p: int|
                0 <= p < i ==> (#[trigger] words@[p])@ == text@.subrange(6 * p, 6 * p + 5),
        decreases n - i,
    {
        let j = i * 6;
        let word: Word = [text[j], text[j + 1], text[j + 2], text[j + 3], text[j + 4]];
        assert(word@ =~= text@.subrange(6 * i, 6 * i + 5));
        words.push(word);
        i += 1;
    }
    words
}

/// The allowed words followed by the possible words.
pub fn combine_words(allowed: &[Word], possible: &[Word]) -> (combined: Vec<Word>)
    requires
        allowed@.len() + possible@.len() <= usize::MAX,
    ensures
        combined@ == allowed@ + possible@,
{
    let mut combined: Vec<Word> = Vec::new();
    let mut i: usize = 0;
    while i < allowed.len()
        invariant
            i <= allowed@.len(),
            combined@ == allowed@.take(i as int),
        decreases allowed@.len() - i,
    {
        combined.push(allowed[i]);
        i += 1;
        assert(combined@ =~= allowed@.take(i as int));
    }
    let mut j: usize = 0;
    while j < possible.len()
        invariant
            i == allowed@.len(),
            j <= possible@.len(),
            combined@ == allowed@ + possible@.take(j as int),
        decreases possible@.len() - j,
    {
        combined.push(possible[j]);
        j += 1;
        assert(combined@ =~= allowed@ + possible@.take(j as int));
    }
    assert(possible@.take(j as int) =~= possible@);
    combined
}

/// The number of `k`-element subsets of an `n`-element set, by Pascal's rule.
pub open spec fn n_choose_k(n: nat, k: nat) -> nat
    decreases n,
{
    if k == 0 {
        1
    } else if n == 0 {
        0
    } else {
        n_choose_k((n - 1) as nat, (k - 1) as nat) + n_choose_k((n - 1) as nat, k)
    }
}

/// `n!`
pub open spec fn factorial(n: nat) -> nat
    decreases n,
{
    if n == 0 {
        1
    } else {
        n * factorial((n - 1) as nat)
    }
}

proof fn lemma_factorial_positive(n: nat)
    ensures
        factorial(n) >= 1,
    decreases n,
{
    if n > 0 {
        lemma_factorial_positive((n - 1) as nat);
        assert(n * factorial((n - 1) as nat) >= 1) by (nonlinear_arith)
            requires
                n >= 1,
                factorial((n - 1) as nat) >= 1,
        ;
    }
}

/// There is no way to choose more elements than the set holds.
pub proof fn lemma_choose_above(n: nat, k: nat)
    requires
        k > n,
    ensures
        n_choose_k(n, k) == 0,
    decreases n,
{
    if n > 0 {
        lemma_choose_above((n - 1) as nat, (k - 1) as nat);
        lemma_choose_above((n - 1) as nat, k);
    }
}

/// There is one way to choose every element.
pub proof fn lemma_choose_all(n: nat)
    ensures
        n_choose_k(n, n) == 1,
    decreases n,
{
    if n > 0 {
        lemma_choose_all((n - 1) as nat);
        lemma_choose_above((n - 1) as nat, n);
    }
}

/// Pascal's rule.
pub proof fn lemma_choose_pascal(n: nat, k: nat)
    requires
        n >= 1,
        k >= 1,
    ensures
        n_choose_k(n, k) == n_choose_k((n - 1) as nat, (k - 1) as nat) + n_choose_k((n - 1) as nat, k),
{
}

/// `n_choose_k(n, k)` is `n! / (k! (n - k)!)`: times `k! (n - k)!` it gives `n!`.
pub proof fn lemma_choose_factorials(n: nat, k: nat)
    requires
        k <= n,
    ensures
        n_choose_k(n, k) * (factorial(k) * factorial((n - k) as nat)) == factorial(n),
    decreases n,
{
    if k == 0 {
        assert(factorial(0) == 1);
        assert(n_choose_k(n, 0) == 1);
        assert((n - 0) as nat == n);
    } else if k == n {
        lemma_choose_all(n);
        assert(factorial(0) == 1);
        assert((n - n) as nat == 0);
    } else {
        let m = (n - 1) as nat;
        lemma_choose_factorials(m, (k - 1) as nat);
        lemma_choose_factorials(m, k);
        let c1 = n_choose_k(m, (k - 1) as nat);
        let c2 = n_choose_k(m, k);
        let a = factorial((k - 1) as nat);
        let b = factorial((n - k - 1) as nat);
        let f = factorial(m);
        assert(factorial(k) == k * a);
        assert(factorial((n - k) as nat) == (n - k) * b);
        assert(factorial(n) == n * f);
        assert((m - (k - 1)) as nat == (n - k) as nat);
        assert((m - k) as nat == (n - k - 1) as nat);
        assert((c1 + c2) * ((k * a) * ((n - k) * b)) == n * f) by (nonlinear_arith)
            requires
                c1 * (a * ((n - k) * b)) == f,
                c2 * ((k * a) * b) == f,
                k < n,
        ;
        assert(n_choose_k(n, k) == c1 + c2);
    }
}

/// `n_choose_k(n, k) == n_choose_k(n, n - k)`.
pub proof fn lemma_choose_symmetric(n: nat, k: nat)
    requires
        k <= n,
    ensures
        n_choose_k(n, k) == n_choose_k(n, (n - k) as nat),
{
    lemma_choose_factorials(n, k);
    lemma_choose_factorials(n, (n - k) as nat);
    lemma_factorial_positive(k);
    lemma_factorial_positive((n - k) as nat);
    let x = factorial(k) * factorial((n - k) as nat);
    assert((n - (n - k)) as nat == k);
    let c = n_choose_k(n, k);
    let d = n_choose_k(n, (n - k) as nat);
    let fk = factorial(k);
    let fr = factorial((n - k) as nat);
    assert(fr * fk == fk * fr) by (nonlinear_arith);
    assert(x >= 1) by (nonlinear_arith)
        requires
            x == fk * fr,
            fk >= 1,
            fr >= 1,
    ;
    assert(c == d) by (nonlinear_arith)
        requires
            c * x == d * x,
            x >= 1,
    ;
}

/// `(i + 1) * n_choose_k(m + 1, i + 1) == (m + 1) * n_choose_k(m, i)`.
proof fn lemma_choose_absorb(m: nat, i: nat)
    requires
        i <= m,
    ensures
        (i + 1) * n_choose_k(m + 1, i + 1) == (m + 1) * n_choose_k(m, i),
{
    lemma_choose_factorials(m + 1, i + 1);
    lemma_choose_factorials(m, i);
    lemma_factorial_positive(i);
    lemma_factorial_positive((m - i) as nat);
    let fi = factorial(i);
    let fr = factorial((m - i) as nat);
    let c1 = n_choose_k(m + 1, i + 1);
    let c0 = n_choose_k(m, i);
    assert(factorial(i + 1) == (i + 1) * fi);
    assert(factorial(m + 1) == (m + 1) * factorial(m));
    assert((m + 1 - (i + 1)) as nat == (m - i) as nat);
    assert(((i + 1) * c1) * (fi * fr) == ((m + 1) * c0) * (fi * fr)) by (nonlinear_arith)
        requires
            c1 * (((i + 1) * fi) * fr) == (m + 1) * factorial(m),
            c0 * (fi * fr) == factorial(m),
    ;
    assert(fi * fr >= 1) by (nonlinear_arith)
        requires
            fi >= 1,
            fr >= 1,
    ;
    let x = fi * fr;
    let l = (i + 1) * c1;
    let r = (m + 1) * c0;
    assert(l == r) by (nonlinear_arith)
        requires
            l * x == r * x,
            x >= 1,
    ;
}

/// Along a diagonal `n_choose_k(d + i, i)` does not decrease.
proof fn lemma_choose_diagonal(d: nat, i: nat, k: nat)
    requires
        i <= k,
    ensures
        n_choose_k(d + i, i) <= n_choose_k(d + k, k),
    decreases k - i,
{
    if i < k {
        lemma_choose_absorb(d + i, i);
        let lo = n_choose_k(d + i, i);
        let hi = n_choose_k(d + i + 1, i + 1);
        assert(lo <= hi) by (nonlinear_arith)
            requires
                (i + 1) * hi == (d + i + 1) * lo,
        ;
        lemma_choose_diagonal(d, i + 1, k);
    }
}

/// The number of strategies of `k` words out of `n`: the binomial coefficient
/// `n` choose `k`, built up as `n_choose_k(n - k + i, i)` for `i` up to `k`.
pub fn binomial_coeff(n: usize, k: usize) -> (r: usize)
    requires
        n_choose_k(n as nat, k as nat) <= usize::MAX,
    ensures
        r == n_choose_k(n as nat, k as nat),
{
    if k > n {
        proof {
            lemma_choose_above(n as nat, k as nat);
        }
        return 0;
    }
    let d = n - k;
    let mut r: u128 = 1;
    let mut i: usize = 0;
    while i < k
        invariant
            i <= k <= n,
            d == n - k,
            r == n_choose_k((d + i) as nat, i as nat),
            n_choose_k(n as nat, k as nat) <= usize::MAX,
        decreases k - i,
    {
        proof {
            lemma_choose_absorb((d + i) as nat, i as nat);
            lemma_choose_diagonal(d as nat, i as nat, k as nat);
            assert((d + k) as nat == n as nat);
        }
        let factor: u128 = (d + i + 1) as u128;
        assert(r * factor <= u128::MAX) by (nonlinear_arith)
            requires
                r <= 0xffff_ffff_ffff_ffffu128,
                factor <= 0xffff_ffff_ffff_ffffu128,
        ;
        let num = r * factor;
        let next = num / ((i + 1) as u128);
        proof {
            let c = n_choose_k((d + i + 1) as nat, (i + 1) as nat);
            let c0 = n_choose_k((d + i) as nat, i as nat);
            assert((i + 1) * c == (d + i + 1) * c0);
            assert(num == (i + 1) * c) by (nonlinear_arith)
                requires
                    num == r * factor,
                    r == c0,
                    factor == d + i + 1,
                    (i + 1) * c == (d + i + 1) * c0,
            ;
            assert(next == c) by (nonlinear_arith)
                requires
                    num == (i + 1) * c,
                    next == num / ((i + 1) as u128),
                    i + 1 >= 1,
            ;
        }
        r = next;
        i += 1;
    }
    r as usize
}

/// The number of decimal digits of `n` (none for zero).
pub open spec fn decimal_digits(n: nat) -> nat
    decreases n,
{
    if n == 0 {
        0
    } else {
        1 + decimal_digits(n / 10)
    }
}

/// `n` lies below `10` to the power of its digit count, and, when positive, at or
/// above the power one lower.
pub proof fn lemma_decimal_digits_bounds(n: nat)
    ensures
        n < pow(10, decimal_digits(n)),
        n > 0 ==> pow(10, (decimal_digits(n) - 1) as nat) <= n,
        decimal_digits(n) <= n,
    decreases n,
{
    reveal(pow);
    if n > 0 {
        let q = n / 10;
        lemma_decimal_digits_bounds(q);
        let d = decimal_digits(q);
        assert(pow(10, d + 1) == 10 * pow(10, d));
        assert(n < 10 * pow(10, d)) by (nonlinear_arith)
            requires
                q == n / 10,
                q < pow(10, d),
        ;
        if q > 0 {
            assert(pow(10, d) == 10 * pow(10, (d - 1) as nat));
            assert(10 * pow(10, (d - 1) as nat) <= n) by (nonlinear_arith)
                requires
                    q == n / 10,
                    pow(10, (d - 1) as nat) <= q,
            ;
        } else {
            assert(d == 0);
            assert(pow(10, 0) == 1);
        }
    }
}

/// The width in characters of `n` written in decimal: its number of digits.
pub fn digit_count(n: usize) -> (d: usize)
    ensures
        d == decimal_digits(n as nat),
        n < pow(10, d as nat),
        n > 0 ==> pow(10, (d - 1) as nat) <= n,
{
    proof {
        lemma_decimal_digits_bounds(n as nat);
    }
    let mut ndigits: usize = 0;
    let mut acc: usize = n;
    while acc > 0
        invariant
            ndigits + decimal_digits(acc as nat) == decimal_digits(n as nat),
            decimal_digits(n as nat) <= n,
        decreases acc,
    {
        let cur_digit = acc % 10;
        acc -= cur_digit;
        acc /= 10;
        ndigits += 1;
    }
    ndigits
}

#[verifier::external_type_specification]
#[verifier::external_body]
pub struct ExUtf8Error(std::str::Utf8Error);

/// `std::str::from_utf8`. Its documentation says that it succeeds exactly on
/// bytes that are valid UTF-8, and that the string it returns is a view of those
/// very bytes; this contract claims that and nothing more, with vstd's
/// `valid_utf8` as the meaning of "valid UTF-8".
#[verifier::external_body]
fn str_from_utf8(bytes: &[u8]) -> (r: Result<&str, std::str::Utf8Error>)
    ensures
        r is Ok <==> valid_utf8(bytes@),
        r matches Ok(s) ==> s.spec_bytes() == bytes@,
{
    std::str::from_utf8(bytes)
}

/// A word as text. The word must be valid UTF-8 (every lower-case word is).
pub fn word_to_string(word: &Word) -> (s: &str)
    requires
        valid_utf8(word@),
    ensures
        s.spec_bytes() == word@,
{
    match str_from_utf8(word.as_slice()) {
        Ok(s) => s,
        Err(_) => "",
    }
}

} // verus!
