use regex::Regex;
use grex::ast::Quantifier;
use grex::component::Component as LayoutComponent;
use grex::regexp::component::Component;

#[test]
fn plain_components() {
    assert_eq!(Component::Asterisk.to_repr(false), "*");
    assert_eq!(Component::UncapturedLeftParenthesis.to_repr(false), "(?:");
    assert_eq!(
        Component::CapturedParenthesizedExpression("ab".to_string()).to_repr(false),
        "(ab)"
    );
    assert_eq!(
        Component::UncapturedParenthesizedExpression("ab".to_string()).to_repr(false),
        "(?:ab)"
    );
    assert_eq!(Component::Repetition(3).to_repr(false), "{3}");
    assert_eq!(Component::Repetition(0).to_repr(false), "{\\d+\\}");
    assert_eq!(Component::RepetitionRange(2, 14).to_repr(false), "{2,14}");
    assert_eq!(Component::RepetitionRange(0, 0).to_repr(false), "{\\d+,\\d+\\}");
    assert_eq!(Component::Quantifier(Quantifier::QuestionMark).to_repr(false), "?");
    assert_eq!(Component::IgnoreCaseAndVerboseModeFlag.to_repr(false), "(?ix)");
    assert_eq!(Component::CharClass("\\d".to_string()).to_repr(false), "\\d");
}

#[test]
fn colored_components() {
    assert_eq!(Component::Pipe.to_repr(true), "\u{1b}[1;31m|\u{1b}[0m");
    assert_eq!(Component::Pipe.to_colored_string(true), "\u{1b}\\[1;31m\\|\u{1b}\\[0m");
    assert_eq!(
        Component::CapturedParenthesizedExpression("a".to_string()).to_colored_string(false),
        "\u{1b}[1;32m(\u{1b}[0ma\u{1b}[1;32m)\u{1b}[0m"
    );
    assert_eq!(
        Component::CharClass("\\w".to_string()).to_colored_string(false),
        "\u{1b}[103;30m\\w\u{1b}[0m"
    );
    assert_eq!(Component::Repetition(12).to_colored_string(false), "\u{1b}[104;37m{12}\u{1b}[0m");
}

#[test]
fn layout_components_in_verbose_mode() {
    assert_eq!(LayoutComponent::Caret(true).to_repr(false), "^\n");
    assert_eq!(LayoutComponent::DollarSign(true).to_repr(false), "\n$");
    assert_eq!(LayoutComponent::Caret(false).to_repr(false), "^");
    assert_eq!(LayoutComponent::VerboseModeFlag.to_repr(false), "(?x)\n");
    assert_eq!(LayoutComponent::Repetition(0, true).to_repr(false), "{\\d+\\}\n");
    assert_eq!(LayoutComponent::Repetition(4, true).to_repr(false), "{4}\n");
    assert_eq!(LayoutComponent::RepetitionRange(1, 2, false).to_repr(false), "{1,2}");
    assert_eq!(
        LayoutComponent::UncapturedParenthesizedExpression("ab".to_string(), true, true)
            .to_repr(false),
        "\n(?:\nab\n)\n"
    );
    assert_eq!(
        LayoutComponent::CapturedParenthesizedExpression("ab".to_string(), true, false)
            .to_repr(false),
        "\n(\nab\n)"
    );
    assert_eq!(
        LayoutComponent::CapturedParenthesizedExpression("ab".to_string(), false, false)
            .to_repr(false),
        "(ab)"
    );
}

#[test]
fn layout_components_highlighted() {
    assert_eq!(
        LayoutComponent::Caret(true).to_colored_string(false),
        "\u{1b}[1;33m^\u{1b}[0m\n"
    );
    assert_eq!(
        LayoutComponent::DollarSign(true).to_colored_string(true),
        "\n\u{1b}\\[1;33m\\$\u{1b}\\[0m"
    );
    assert_eq!(
        LayoutComponent::IgnoreCaseAndVerboseModeFlag.to_colored_string(false),
        "\u{1b}[40;93m(?ix)\u{1b}[0m\n"
    );
    assert_eq!(
        LayoutComponent::Quantifier(Quantifier::KleeneStar, true).to_colored_string(false),
        "\u{1b}[1;35m*\u{1b}[0m\n"
    );
}

fn strip_colors(s: &str) -> String {
    Regex::new("\u{1b}\\[[0-9;]*m").unwrap().replace_all(s, "").to_string()
}

#[test]
fn colors_strip_to_plain_text() {
    let components = vec![
        Component::Asterisk,
        Component::CapturedParenthesizedExpression("a|b".to_string()),
        Component::UncapturedParenthesizedExpression("xy".to_string()),
        Component::CharClass("[a-c]".to_string()),
        Component::Repetition(3),
        Component::RepetitionRange(0, 0),
        Component::IgnoreCaseFlag,
        Component::DollarSign,
    ];
    for c in components {
        assert_eq!(strip_colors(&c.to_colored_string(false)), c.to_string());
    }
    let layout = vec![
        LayoutComponent::CapturedParenthesizedExpression("ab".to_string(), true, true),
        LayoutComponent::UncapturedParenthesizedExpression("ab".to_string(), false, false),
        LayoutComponent::Caret(true),
        LayoutComponent::DollarSign(true),
        LayoutComponent::Quantifier(Quantifier::KleeneStar, true),
        LayoutComponent::VerboseModeFlag,
        LayoutComponent::RepetitionRange(2, 4, true),
    ];
    for c in layout {
        assert_eq!(strip_colors(&c.to_colored_string(false)), c.to_string());
    }
}
