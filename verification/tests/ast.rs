use grex::ast::{concatenate, repeat_zero_or_more_times, union, Expression, Quantifier, Substring};

#[test]
fn ensure_correct_string_representations_of_literals() {
    let params = vec![
        ("I ♥ cake", "I \\u{2665} cake"),
        ("I \u{2665} cake", "I \\u{2665} cake"),
        ("I \\u{2665} cake", "I \\\\u\\{2665\\} cake"),
        ("I \\u2665 cake", "I \\\\u2665 cake"),
    ];
    for (input, expected_output) in params {
        let literal = Expression::new_literal(input);
        assert_eq!(literal.to_string(), expected_output);
    }
}

#[test]
fn ensure_correct_removal_of_prefix_in_literal() {
    let mut literal = Expression::new_literal("abcdef");
    assert_eq!(literal.value(None), Some(vec!["a", "b", "c", "d", "e", "f"]));
    literal.remove_substring(&Substring::Prefix, 2);
    assert_eq!(literal.value(None), Some(vec!["c", "d", "e", "f"]));
}

#[test]
fn ensure_correct_removal_of_suffix_in_literal() {
    let mut literal = Expression::new_literal("abcdef");
    assert_eq!(literal.value(None), Some(vec!["a", "b", "c", "d", "e", "f"]));
    literal.remove_substring(&Substring::Suffix, 2);
    assert_eq!(literal.value(None), Some(vec!["a", "b", "c", "d"]));
}

#[test]
fn ensure_correct_string_representation_of_repetition_1() {
    let literal = Expression::new_literal("abc");
    let repetition = Expression::new_repetition(literal, Quantifier::KleeneStar);
    assert_eq!(repetition.to_string(), "(abc)*");
}

#[test]
fn ensure_correct_string_representation_of_repetition_2() {
    let literal = Expression::new_literal("a");
    let repetition = Expression::new_repetition(literal, Quantifier::QuestionMark);
    assert_eq!(repetition.to_string(), "a?");
}

#[test]
fn ensure_correct_string_representation_of_concatenation_1() {
    let literal1 = Expression::new_literal("abc");
    let literal2 = Expression::new_literal("def");
    let concatenation = Expression::new_concatenation(literal1, literal2);
    assert_eq!(concatenation.to_string(), "abcdef");
}

#[test]
fn ensure_correct_string_representation_of_concatenation_2() {
    let literal1 = Expression::new_literal("abc");
    let literal2 = Expression::new_literal("def");
    let repetition = Expression::new_repetition(literal1, Quantifier::KleeneStar);
    let concatenation = Expression::new_concatenation(repetition, literal2);
    assert_eq!(concatenation.to_string(), "(abc)*def");
}

#[test]
fn ensure_correct_string_representation_of_alternation_1() {
    let literal1 = Expression::new_literal("abc");
    let literal2 = Expression::new_literal("def");
    let alternation = Expression::new_alternation(literal1, literal2);
    assert_eq!(alternation.to_string(), "abc|def");
}

#[test]
fn ensure_correct_string_representation_of_alternation_2() {
    let literal1 = Expression::new_literal("a");
    let literal2 = Expression::new_literal("ab");
    let literal3 = Expression::new_literal("abc");
    let alternation1 = Expression::new_alternation(literal1, literal2);
    let alternation2 = Expression::new_alternation(alternation1, literal3);
    assert_eq!(alternation2.to_string(), "abc|ab|a");
}

#[test]
fn literal_symbols_and_controls_are_escaped() {
    let literal = Expression::new_literal("a.b*\t\n\r$");
    assert_eq!(literal.to_string(), "a\\.b\\*\\t\\n\\r\\$");
}

#[test]
fn concatenation_of_two_literals_is_one_literal() {
    let a = Some(Expression::new_literal("ab"));
    let b = Some(Expression::new_literal("cd"));
    let c = concatenate(&a, &b).unwrap();
    assert_eq!(c.value(None), Some(vec!["a", "b", "c", "d"]));
    assert_eq!(c.to_string(), "abcd");
}

#[test]
fn concatenation_with_a_missing_side_is_missing() {
    let a = Some(Expression::new_literal("ab"));
    assert!(concatenate(&a, &None).is_none());
    assert!(concatenate(&None, &a).is_none());
}

#[test]
fn concatenation_with_an_empty_literal_is_the_other_side() {
    let a = Some(Expression::new_literal(""));
    let b = Some(Expression::new_literal("xy"));
    assert_eq!(concatenate(&a, &b).unwrap().to_string(), "xy");
}

#[test]
fn union_of_literals_shares_prefix_and_suffix() {
    let a = Some(Expression::new_literal("abxcd"));
    let b = Some(Expression::new_literal("abycd"));
    let u = union(&a, &b).unwrap();
    assert_eq!(u.to_string(), "ab(x|y)cd");
}

#[test]
fn union_with_a_prefix_of_itself_is_optional() {
    let a = Some(Expression::new_literal("ab"));
    let b = Some(Expression::new_literal("abc"));
    let u = union(&a, &b).unwrap();
    assert_eq!(u.to_string(), "abc?");
}

#[test]
fn union_of_equal_expressions_is_the_expression() {
    let a = Some(Expression::new_literal("ab"));
    let b = Some(Expression::new_literal("ab"));
    assert_eq!(union(&a, &b).unwrap().to_string(), "ab");
    assert_eq!(union(&a, &None).unwrap().to_string(), "ab");
    assert!(union(&None, &None).is_none());
}

#[test]
fn repetition_of_missing_expression_is_missing() {
    assert!(repeat_zero_or_more_times(&None).is_none());
    let r = repeat_zero_or_more_times(&Some(Expression::new_literal("ab"))).unwrap();
    assert_eq!(r.to_string(), "(ab)*");
}

#[test]
fn quantifier_text() {
    assert_eq!(Quantifier::KleeneStar.to_string(), "*");
    assert_eq!(Quantifier::QuestionMark.to_string(), "?");
}

#[test]
fn union_with_a_multi_byte_common_prefix() {
    let a = Some(Expression::new_literal("I ♥ cake"));
    let b = Some(Expression::new_literal("I ♥ cookies"));
    let u = union(&a, &b).unwrap();
    assert_eq!(u.to_string(), "I \\u{2665} c(ookies|ake)");
    let suffix = union(
        &Some(Expression::new_literal("a♥♥")),
        &Some(Expression::new_literal("bc♥♥")),
    )
    .unwrap();
    assert_eq!(suffix.to_string(), "(bc|a)\\u{2665}\\u{2665}");
}
