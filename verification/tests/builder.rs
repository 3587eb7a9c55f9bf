use grex::ast::Expression;
use grex::generate::{is_each_test_case_matched, regex_matches_all_test_cases};
use grex::builder::{RegExpBuilder, MISSING_TEST_CASES_MESSAGE};

fn cases(v: &[&str]) -> Vec<String> {
    v.iter().map(|s| s.to_string()).collect()
}

#[test]
fn builder_starts_with_default_settings() {
    let builder = RegExpBuilder::from(&cases(&["b", "a"]));
    assert_eq!(builder.test_cases, vec!["b".to_string(), "a".to_string()]);
    assert_eq!(builder.config.minimum_repetitions, 1);
    assert_eq!(builder.config.minimum_substring_length, 1);
    assert!(!builder.config.is_digit_converted);
    assert!(!builder.config.is_start_anchor_disabled);
    assert!(!builder.config.is_output_colorized);
}

#[test]
fn builder_settings_chain() {
    let mut builder = RegExpBuilder::from(&cases(&["abc"]));
    builder
        .with_conversion_of_digits()
        .with_conversion_of_words()
        .with_conversion_of_repetitions()
        .with_minimum_repetitions(3)
        .with_minimum_substring_length(2)
        .with_escaping_of_non_ascii_chars(true)
        .without_anchors();
    let c = builder.config;
    assert!(c.is_digit_converted);
    assert!(c.is_word_converted);
    assert!(!c.is_non_word_converted);
    assert!(c.is_repetition_converted);
    assert_eq!(c.minimum_repetitions, 3);
    assert_eq!(c.minimum_substring_length, 2);
    assert!(c.is_non_ascii_char_escaped);
    assert!(c.is_astral_code_point_converted_to_surrogate);
    assert!(c.is_start_anchor_disabled);
    assert!(c.is_end_anchor_disabled);
}

#[test]
fn builder_single_settings() {
    let mut builder = RegExpBuilder::from(&cases(&["x"]));
    builder.without_end_anchor();
    assert!(!builder.config.is_start_anchor_disabled);
    assert!(builder.config.is_end_anchor_disabled);
    builder
        .with_case_insensitive_matching()
        .with_capturing_groups()
        .with_verbose_mode()
        .with_syntax_highlighting()
        .with_conversion_of_non_digits()
        .with_conversion_of_whitespace()
        .with_conversion_of_non_whitespace()
        .with_conversion_of_non_words()
        .without_start_anchor()
        .with_escaping_of_non_ascii_chars(false);
    let c = builder.config;
    assert!(c.is_case_insensitive_matching);
    assert!(c.is_capturing_group_enabled);
    assert!(c.is_verbose_mode_enabled);
    assert!(c.is_output_colorized);
    assert!(c.is_non_digit_converted);
    assert!(c.is_space_converted);
    assert!(c.is_non_space_converted);
    assert!(c.is_non_word_converted);
    assert!(c.is_start_anchor_disabled);
    assert!(c.is_non_ascii_char_escaped);
    assert!(!c.is_astral_code_point_converted_to_surrogate);
}

#[test]
fn missing_test_cases_message() {
    assert_eq!(
        MISSING_TEST_CASES_MESSAGE,
        "No test cases have been provided for regular expression generation"
    );
}

#[test]
fn build_offers_each_test_case() {
    let mut builder = RegExpBuilder::from(&cases(&["b", "a", "b"]));
    assert_eq!(builder.build(), "^(?:a|b)$");
    assert_eq!(builder.test_cases, vec!["a".to_string(), "b".to_string()]);
    let mut single = RegExpBuilder::from(&cases(&["a.c"]));
    assert_eq!(single.build(), "^a\\.c$");
}

#[test]
fn build_with_settings() {
    let mut builder = RegExpBuilder::from(&cases(&["ABC", "de"]));
    builder.with_case_insensitive_matching().with_capturing_groups();
    assert_eq!(builder.build(), "(?i)^(abc|de)$");
    let mut bare = RegExpBuilder::from(&cases(&["x", "yz"]));
    bare.without_anchors();
    assert_eq!(bare.build(), "(?:yz|x)");
}

#[test]
fn regex_counts_one_match_per_test_case() {
    let test_cases = cases(&["a", "aa"]);
    assert_eq!(regex_matches_all_test_cases("aa|a", &test_cases), Some(true));
    assert_eq!(regex_matches_all_test_cases("a|aa", &test_cases), Some(false));
    assert_eq!(regex_matches_all_test_cases("(", &test_cases), None);
    assert_eq!(regex_matches_all_test_cases("(", &cases(&[])), Some(true));
}

#[test]
fn expression_of_test_cases_matches_each_once() {
    let test_cases = cases(&["ab", "cd"]);
    let alternation = Expression::new_alternation(
        Expression::new_literal("ab"),
        Expression::new_literal("cd"),
    );
    assert_eq!(is_each_test_case_matched(&alternation, &test_cases), Some(true));
    let literal = Expression::new_literal("ab");
    assert_eq!(is_each_test_case_matched(&literal, &test_cases), Some(false));
}
