use neowatch::bignat::{BigNat, Relation};
use neowatch::numeric::{find_numeric, Numeric};
use neowatch::score::{
    relate_line_scores, relate_word_scores, similarity_near_one, word_score_exceeds_half,
};
use neowatch::similarity::similarity;

fn ratio(a: &str, b: &str) -> (u128, u128) {
    let s = similarity(a, b);
    (s.numerator(), s.denominator())
}

fn number(text: &str, radix: u32) -> Numeric {
    match find_numeric(text, radix) {
        Some(n) => n,
        None => panic!("no number in {}", text),
    }
}

#[test]
fn similarity_of_a_string_with_itself_is_one() {
    for text in ["", "a", "cpu:", "12%", "löwe", "a b  c"] {
        let s = similarity(text, text);
        assert_eq!(s.numerator(), s.denominator());
        assert!(s.is_one());
    }
}

#[test]
fn similarity_is_above_zero_and_at_most_one() {
    let words = ["", "a", "b", "ab", "ba", "abc", "xyz", "12%", "10%"];
    for a in words {
        for b in words {
            let (n, d) = ratio(a, b);
            assert!(0 < n);
            assert!(n <= d);
        }
    }
}

#[test]
fn similarity_counts_agreeing_positions_of_the_common_prefix() {
    assert_eq!(ratio("", ""), (1, 1));
    assert_eq!(ratio("", "abc"), (1, 1));
    assert_eq!(ratio("abc", "abd"), (3, 4));
    assert_eq!(ratio("abc", "xyz"), (1, 4));
    assert_eq!(ratio("120%", "100%"), (4, 5));
    assert_eq!(ratio("ab", "abc"), (3, 3));
    assert_eq!(ratio("xabc", "abc"), (1, 4));
}

#[test]
fn similarity_compares_characters_not_bytes() {
    assert_eq!(ratio("äb", "öb"), (2, 3));
}

#[test]
fn line_scores_are_divided_by_one_plus_the_distance() {
    let full = similarity("abc", "abc");
    let part = similarity("abc", "abd");
    // 1/2 against 3/4
    assert_eq!(relate_line_scores(&full, 1, &part, 0), Relation::Less);
    // 1/1 against 3/4
    assert_eq!(relate_line_scores(&full, 0, &part, 0), Relation::Greater);
    // 1/3 against 1/3
    assert_eq!(relate_line_scores(&full, 2, &full, 2), Relation::Equal);
    // (3/4)/2 = 3/8 against 1/3
    assert_eq!(relate_line_scores(&part, 1, &full, 2), Relation::Greater);
}

#[test]
fn word_scores_tie_where_the_roots_are_whole() {
    // (5 + 1/7) / (5 + 1) = 6/7 = (5 + 1) / (5 + 2)
    let weak = similarity("abcdef", "uvwxyz");
    let full = similarity("abcdef", "abcdef");
    assert_eq!((weak.numerator(), weak.denominator()), (1, 7));
    assert_eq!(relate_word_scores(&weak, 0, &full, 3), Relation::Equal);
    assert_eq!(relate_word_scores(&full, 3, &weak, 0), Relation::Equal);
    assert_eq!(relate_word_scores(&weak, 0, &full, 2), Relation::Less);
    assert_eq!(relate_word_scores(&weak, 0, &full, 4), Relation::Greater);
}

#[test]
fn word_scores_with_irrational_roots_are_ordered() {
    let half = similarity("a", "x");
    let full = similarity("a", "a");
    // 5.5 / 6 against 6 / (5 + sqrt 2)
    assert_eq!(relate_word_scores(&half, 0, &full, 1), Relation::Less);
    // 5.5 / (5 + sqrt 2) against 6 / (5 + sqrt 3)
    assert_eq!(relate_word_scores(&half, 1, &full, 2), Relation::Less);
    // 5.5 / (5 + sqrt 2) against 6 / (5 + sqrt 5)
    assert_eq!(relate_word_scores(&half, 1, &full, 4), Relation::Greater);
    assert_eq!(relate_word_scores(&full, 4, &half, 1), Relation::Less);
}

#[test]
fn word_score_is_above_one_half_up_to_a_distance() {
    let half = similarity("a", "x");
    // 5.5 / (5 + sqrt(1 + k)) > 1/2 exactly while sqrt(1 + k) < 6
    assert!(word_score_exceeds_half(&half, 0));
    assert!(word_score_exceeds_half(&half, 34));
    assert!(!word_score_exceeds_half(&half, 35));
    assert!(!word_score_exceeds_half(&half, 36));
    let full = similarity("a", "a");
    // 6 / (5 + sqrt(1 + k)) > 1/2 exactly while sqrt(1 + k) < 7
    assert!(word_score_exceeds_half(&full, 47));
    assert!(!word_score_exceeds_half(&full, 48));
}

#[test]
fn only_a_full_similarity_of_short_words_is_near_one() {
    assert!(similarity_near_one(&similarity("abc", "abc")));
    assert!(similarity_near_one(&similarity("", "abc")));
    assert!(!similarity_near_one(&similarity("abc", "abd")));
}

#[test]
fn find_numeric_reads_up_to_the_last_digit_exclusive() {
    // The literal stops before the last digit of the word.
    assert!(number("42", 10).same_value(&Numeric::from_u32(4)));
    assert!(number("420", 10).same_value(&Numeric::from_u32(42)));
    assert!(number("123", 10).same_value(&Numeric::from_u32(12)));
    assert!(number("12%", 10).same_value(&Numeric::from_u32(1)));
    assert!(number("x120%", 10).same_value(&Numeric::from_u32(12)));
}

#[test]
fn find_numeric_without_a_readable_literal_is_none() {
    assert!(find_numeric("abc", 10).is_none());
    assert!(find_numeric("", 10).is_none());
    assert!(find_numeric("...", 10).is_none());
    // a single digit leaves an empty literal
    assert!(find_numeric("5", 10).is_none());
    assert!(find_numeric("5%", 10).is_none());
    // other characters inside the literal
    assert!(find_numeric("1a2b3", 10).is_none());
    assert!(find_numeric("1,000", 10).is_none());
    assert!(find_numeric("1e5", 10).is_none());
    assert!(find_numeric("1.2.33", 10).is_none());
}

#[test]
fn find_numeric_parses_hexadecimal() {
    assert!(number("ff", 16).same_value(&Numeric::from_u32(15)));
    assert!(number("ff0", 16).same_value(&Numeric::from_u32(255)));
    assert!(find_numeric("0xFF0", 16).is_none());
    assert!(number("DeadBeef0", 16).same_value(&Numeric::from_u32(0xdead_beef)));
    assert!(find_numeric("g", 16).is_none());
}

#[test]
fn find_numeric_rejects_fractions_outside_base_ten() {
    assert!(find_numeric("1.5", 16).is_none());
    assert!(find_numeric("1.55", 2).is_none());
    assert!(find_numeric("7.77", 8).is_none());
}

#[test]
fn find_numeric_rejects_what_does_not_fit_in_32_bits() {
    assert!(number("ffffffff0", 16).same_value(&Numeric::from_u32(u32::MAX)));
    assert!(find_numeric("1000000000", 16).is_none());
    assert!(find_numeric("fffffffff0", 16).is_none());
}

#[test]
fn find_numeric_in_other_bases() {
    assert!(number("1011", 2).same_value(&Numeric::from_u32(5)));
    // in base two the digit 2 is no digit, and it falls inside the literal
    assert!(find_numeric("1021", 2).is_none());
    assert!(number("7770", 8).same_value(&Numeric::from_u32(0o777)));
}

#[test]
fn find_numeric_reads_digits_of_base_36() {
    assert!(number("zz0", 36).same_value(&Numeric::from_u32(35 * 36 + 35)));
    assert!(number("Zz0", 36).same_value(&Numeric::from_u32(35 * 36 + 35)));
}

#[test]
fn find_numeric_reads_fractions_in_base_ten() {
    // "1.5" leaves "1.", which is one
    assert!(number("1.5", 10).same_value(&Numeric::from_u32(1)));
    // "3.14" leaves "3.1"
    let pi = number("3.14", 10);
    assert!(pi.exceeds(&Numeric::from_u32(3)));
    assert!(Numeric::from_u32(4).exceeds(&pi));
    assert!(pi.exceeds(&number("3.09", 10)));
    assert!(pi.same_value(&number("3.100", 10)));
    assert!(pi.same_value(&number("03.10", 10)));
    assert!(number("0.250", 10).same_value(&number("25e-20", 10)));
}

#[test]
fn find_numeric_reads_exponents_in_base_ten() {
    assert!(number("1e10", 10).same_value(&Numeric::from_u32(10)));
    assert!(number("1E+20", 10).same_value(&Numeric::from_u32(100)));
    assert!(number("25e-10", 10).same_value(&number("2.50", 10)));
    assert!(number("1.e20", 10).same_value(&Numeric::from_u32(100)));
    assert!(Numeric::from_u32(1).exceeds(&number("1e-10", 10)));
    assert!(number("1e-10", 10).exceeds(&Numeric::from_u32(0)));
    assert!(find_numeric("1e+5", 10).is_none());
    assert!(find_numeric("1e-", 10).is_none());
}

#[test]
fn numbers_of_any_size_are_compared_exactly() {
    // the literals end in ...90 and ...91
    let big = number("1e999999999999999999999999900", 10);
    let bigger = number("1e999999999999999999999999910", 10);
    assert!(bigger.exceeds(&big));
    assert!(!big.exceeds(&bigger));
    assert!(big.exceeds(&Numeric::from_u32(u32::MAX)));
    let tiny = number("1e-999999999999999999999999990", 10);
    assert!(tiny.exceeds(&Numeric::from_u32(0)));
    assert!(Numeric::from_u32(1).exceeds(&tiny));
    let a = number("167772160", 10);
    let b = number("167772170", 10);
    assert!(b.exceeds(&a));
    assert!(number("0e50", 10).same_value(&Numeric::from_u32(0)));
}

#[test]
fn a_number_does_not_exceed_itself() {
    let n = number("120%", 10);
    assert!(!n.exceeds(&n));
    assert!(n.same_value(&n));
}

#[test]
fn big_naturals_add_multiply_and_compare() {
    let a = BigNat::from_u128(u128::MAX);
    let b = BigNat::from_u128(3);
    let product = a.times(&b);
    let sum = a.plus(&a).plus(&a);
    assert_eq!(product.compare(&sum), Relation::Equal);
    assert_eq!(product.compare(&a), Relation::Greater);
    assert_eq!(a.compare(&product), Relation::Less);
    assert!(product.minus(&sum).unwrap().is_zero());
    assert!(a.minus(&product).is_none());
    let c = BigNat::from_u128(1_000_000_007);
    assert_eq!(c.scale_add(10, 3).compare(&BigNat::from_u128(10_000_000_073)), Relation::Equal);
    let square = a.times(&a);
    let again = square.minus(&a).unwrap().plus(&a);
    assert_eq!(again.compare(&square), Relation::Equal);
    assert!(!square.is_zero());
    assert!(BigNat::from_u128(0).is_zero());
}
