use grex::ast::Expression;
use grex::regexp::config::RegExpConfig;
use grex::regexp::feature::Feature;
use grex::regexp::verbose::{apply_verbose_mode, try_apply_verbose_mode, RegExp as LayoutRegExp};
use grex::regexp::{
    convert_for_case_insensitive_matching, convert_to_lowercase, grapheme_clusters, indent_regexp,
    sort, RegExp,
};

fn alternation() -> Expression {
    Expression::new_alternation(Expression::new_literal("abc"), Expression::new_literal("de"))
}

#[test]
fn anchored_literal() {
    let config = RegExpConfig::new();
    let r = RegExp::new(Expression::new_literal("a.b"), &config);
    assert_eq!(r.to_string(), "^a\\.b$");
}

#[test]
fn anchored_alternation_is_grouped() {
    let config = RegExpConfig::new();
    let r = RegExp::new(alternation(), &config);
    assert_eq!(r.to_string(), "^(?:abc|de)$");
    let mut config = RegExpConfig::new();
    config.is_capturing_group_enabled = true;
    config.is_case_insensitive_matching = true;
    let r = RegExp::new(alternation(), &config);
    assert_eq!(r.to_string(), "(?i)^(abc|de)$");
}

#[test]
fn anchors_can_be_left_out() {
    let mut config = RegExpConfig::new();
    config.is_start_anchor_disabled = true;
    config.is_end_anchor_disabled = true;
    let r = RegExp::new(Expression::new_literal("ab"), &config);
    assert_eq!(r.to_string(), "ab");
}

#[test]
fn line_tabulation_and_form_feed_are_escaped() {
    let config = RegExpConfig::new();
    let r = RegExp::new(Expression::new_literal("a\u{b}\u{c}"), &config);
    assert_eq!(r.to_string(), "^a\\v\\f$");
}

#[test]
fn verbose_layout() {
    let mut config = RegExpConfig::new();
    config.is_verbose_mode_enabled = true;
    let r = RegExp::new(alternation(), &config);
    assert_eq!(r.to_string(), "(?x)\n^\n  (?:\n    abc|de\n  )\n$");
}

#[test]
fn verbose_layout_escapes_spaces() {
    let mut config = RegExpConfig::new();
    config.is_verbose_mode_enabled = true;
    let r = RegExp::new(Expression::new_literal("a b#"), &config);
    assert_eq!(r.to_string(), "(?x)\n^\n  a\\ b\\#\n$");
}

#[test]
fn indentation_of_lines() {
    let config = RegExpConfig::new();
    assert_eq!(indent_regexp("^\n(?:\na\n)\n$".to_string(), &config), "^\n  (?:\n    a\n  )\n$");
    assert_eq!(indent_regexp("".to_string(), &config), "");
    assert_eq!(indent_regexp("a\n\nb\n".to_string(), &config), "a\nb");
}

#[test]
fn sorting_test_cases() {
    let mut cases = vec![
        "bb".to_string(),
        "a".to_string(),
        "ccc".to_string(),
        "aa".to_string(),
        "bb".to_string(),
        "é".to_string(),
    ];
    sort(&mut cases);
    assert_eq!(cases, vec!["a", "aa", "bb", "é", "ccc"]);
}

#[test]
fn case_insensitive_conversion() {
    let mut cases = vec!["ABC".to_string(), "İ".to_string()];
    convert_for_case_insensitive_matching(&mut cases);
    assert_eq!(cases, vec!["abc", "İ"]);
}

#[test]
fn clusters_with_conversions() {
    let mut config = RegExpConfig::new();
    config.is_digit_converted = true;
    config.is_repetition_converted = true;
    let clusters = grapheme_clusters(&["a111".to_string()], &config);
    let texts: Vec<String> = clusters[0].graphemes().iter().map(|g| g.to_string()).collect();
    assert_eq!(texts, vec!["a", "\\d{3}"]);
}

#[test]
fn features() {
    assert!(Feature::Digit.is_char_class());
    assert!(!Feature::Repetition.is_char_class());
    let mut config = RegExpConfig::new();
    assert!(!config.is_char_class_feature_enabled());
    config.is_capturing_group_enabled = true;
    assert!(config.is_char_class_feature_enabled());
}

#[test]
fn verbose_mode_with_regular_expressions() {
    let mut config = RegExpConfig::new();
    config.is_verbose_mode_enabled = true;
    let r = LayoutRegExp::new(alternation(), &config);
    assert_eq!(r.to_string(), "(?x)\n^\n  (?:\n    abc\n    |\n    de\n  )\n$");
    assert_eq!(
        try_apply_verbose_mode("^ab$", &config),
        Some("(?x)\n^\n  ab\n$".to_string())
    );
}

#[test]
fn verbose_mode_applied_to_a_laid_out_expression() {
    let mut config = RegExpConfig::new();
    config.is_verbose_mode_enabled = true;
    assert_eq!(
        apply_verbose_mode("^(?:abc|de)$".to_string(), &config),
        try_apply_verbose_mode("^(?:abc|de)$", &config).unwrap()
    );
    assert_eq!(
        apply_verbose_mode("^ab$".to_string(), &config),
        "(?x)\n^\n  ab\n$"
    );
}

#[test]
fn test_cases_lowercased() {
    let mut cases = vec!["ABC".to_string(), "İx".to_string(), "ß".to_string()];
    convert_to_lowercase(&mut cases);
    assert_eq!(cases, vec!["abc".to_string(), "i\u{307}x".to_string(), "ß".to_string()]);
}
