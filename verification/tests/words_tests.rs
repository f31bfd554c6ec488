use wordle_strats::words::{
    binomial_coeff, combine_words, digit_count, parse_words, word_count, word_to_string, Word,
};

#[test]
fn counts_lines() {
    assert_eq!(word_count(b""), 0);
    assert_eq!(word_count(b"cigar\nrebut\n"), 2);
    assert_eq!(word_count(b"cigar\nrebut"), 1);
}

#[test]
fn parses_words_line_by_line() {
    let words = parse_words(b"cigar\nrebut\nsissy\n");
    assert_eq!(words, vec![*b"cigar", *b"rebut", *b"sissy"]);
    assert_eq!(parse_words(b""), Vec::<Word>::new());
}

#[test]
fn combines_allowed_then_possible() {
    let allowed: Vec<Word> = vec![*b"aahed", *b"aalii"];
    let possible: Vec<Word> = vec![*b"cigar"];
    assert_eq!(
        combine_words(&allowed, &possible),
        vec![*b"aahed", *b"aalii", *b"cigar"]
    );
}

#[test]
fn binomial_of_the_word_lists() {
    // two-word strategies out of 13867, 12962 and 12972 words
    assert_eq!(binomial_coeff(13867, 2), 96139911);
    assert_eq!(binomial_coeff(12962, 2), 84000241);
    assert_eq!(binomial_coeff(12972, 2), 84129906);
}

#[test]
fn binomial_small_cases() {
    assert_eq!(binomial_coeff(4, 4), 1);
    assert_eq!(binomial_coeff(10, 0), 1);
    assert_eq!(binomial_coeff(3, 7), 0);
    assert_eq!(binomial_coeff(10, 1), 10);
    assert_eq!(binomial_coeff(3, 2), 3);
    assert_eq!(binomial_coeff(4, 2), 6);
    assert_eq!(binomial_coeff(4, 3), 4);
    assert_eq!(binomial_coeff(5, 2), 10);
    assert_eq!(binomial_coeff(5, 3), 10);
    assert_eq!(binomial_coeff(6, 2), 15);
    assert_eq!(binomial_coeff(7, 2), 21);
    assert_eq!(binomial_coeff(52, 5), 2598960);
}

#[test]
fn binomial_symmetry_and_pascal() {
    for n in 1..20usize {
        for k in 1..=n {
            assert_eq!(binomial_coeff(n, k), binomial_coeff(n, n - k));
            assert_eq!(
                binomial_coeff(n, k),
                binomial_coeff(n - 1, k - 1) + binomial_coeff(n - 1, k)
            );
        }
    }
}

#[test]
fn binomial_near_the_limit() {
    // 66 choose 33 fits in 64 bits although the products along the way do not
    assert_eq!(binomial_coeff(66, 33), 7219428434016265740);
}

#[test]
fn digit_counts() {
    assert_eq!(digit_count(0), 0);
    assert_eq!(digit_count(7), 1);
    assert_eq!(digit_count(10), 2);
    assert_eq!(digit_count(99), 2);
    assert_eq!(digit_count(96139911), 8);
}

#[test]
fn word_as_text() {
    let w: Word = *b"cigar";
    assert_eq!(word_to_string(&w), "cigar");
}
