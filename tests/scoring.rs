use uma_helper::similarity::{
    calculate_partial_match, millionths_of_bits, split_words_of, string_similarity, SCORE_ONE,
};

#[test]
fn identical_strings_score_one() {
    assert_eq!(string_similarity("speed training", "speed training"), SCORE_ONE);
}

#[test]
fn empty_strings_score() {
    assert_eq!(string_similarity("", ""), SCORE_ONE);
    assert_eq!(string_similarity("abc", ""), 0);
    assert_eq!(string_similarity("", "abc"), 0);
}

#[test]
fn similarity_of_close_strings() {
    let s = string_similarity("cheeseburger", "cheese fries");
    assert!((865_000..=867_000).contains(&s), "{}", s);
    let d = string_similarity("abc", "xyz");
    assert_eq!(d, 0);
}

#[test]
fn bits_to_millionths() {
    assert_eq!(millionths_of_bits(0.0f64.to_bits()), 0);
    assert_eq!(millionths_of_bits(1.0f64.to_bits()), 1_000_000);
    assert_eq!(millionths_of_bits(0.6f64.to_bits()), 600_000);
    assert_eq!(millionths_of_bits(0.5f64.to_bits()), 500_000);
    assert_eq!(millionths_of_bits(0.123_456_4f64.to_bits()), 123_456);
    assert_eq!(millionths_of_bits(0.123_456_6f64.to_bits()), 123_457);
    assert_eq!(millionths_of_bits(f64::MIN_POSITIVE.to_bits()), 0);
    assert_eq!(millionths_of_bits((-0.5f64).to_bits()), 0);
    assert_eq!(millionths_of_bits(2.0f64.to_bits()), 1_000_000);
    assert_eq!(millionths_of_bits(f64::INFINITY.to_bits()), 1_000_000);
}

#[test]
fn split_words_on_whitespace() {
    assert_eq!(split_words_of("  a  bc\td \n"), vec!["a", "bc", "d"]);
    assert!(split_words_of("   ").is_empty());
    assert!(split_words_of("").is_empty());
}

#[test]
fn partial_match_of_swapped_words() {
    assert_eq!(calculate_partial_match("summer camp", "camp summer"), SCORE_ONE);
}

#[test]
fn partial_match_counts_every_query_word() {
    // One of two query words matches exactly, the other matches nothing.
    assert_eq!(calculate_partial_match("camp xq", "summer camp"), 500_000);
}

#[test]
fn partial_match_of_empty_sides() {
    assert_eq!(calculate_partial_match("", "camp"), 0);
    assert_eq!(calculate_partial_match("camp", ""), 0);
    assert_eq!(calculate_partial_match("   ", "  "), 0);
}
