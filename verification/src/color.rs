//! Highlighting of regular-expression components with terminal colors.
use crate::regexp::component::color_code_text;
use crate::text::{str_eq, to_chars};
use colored::Colorize;
use vstd::prelude::*;

verus! {

/// The highlighting styles in use.
#[derive(Clone, Copy, Debug, PartialEq, Eq, Structural)]
pub enum Style {
    Plain,
    BrightYellowOnBlack,
    GreenBold,
    WhiteOnBrightBlue,
    CyanBold,
    YellowBold,
    PurpleBold,
    RedBold,
    BlackOnBrightYellow,
}

/// The terminal color code of a style.
pub open spec fn style_code(style: Style) -> Seq<char> {
    match style {
        Style::Plain => Seq::empty(),
        Style::BrightYellowOnBlack => "40;93"@,
        Style::GreenBold => "1;32"@,
        Style::WhiteOnBrightBlue => "104;37"@,
        Style::CyanBold => "1;36"@,
        Style::YellowBold => "1;33"@,
        Style::PurpleBold => "1;35"@,
        Style::RedBold => "1;31"@,
        Style::BlackOnBrightYellow => "103;30"@,
    }
}

/// The terminal reset sequence starts at position `i` of `t`.
pub open spec fn reset_at(t: Seq<char>, i: int) -> bool {
    0 <= i && i + 4 <= t.len() && t[i] == '\u{1b}' && t[i + 1] == '[' && t[i + 2] == '0' && t[i
        + 3] == 'm'
}

/// The text holds a terminal reset sequence.
pub open spec fn contains_reset(t: Seq<char>) -> bool {
    exists|i: int| #[trigger] reset_at(t, i)
}

/// What the terminal shows of a text painted in a style: a plain style leaves it as
/// it is; another style either leaves it as it is (where the terminal or the
/// environment asks for no colors) or wraps it in the style's escape sequences, for
/// a text without a reset sequence of its own.
pub open spec fn painted(style: Style, text: Seq<char>, out: Seq<char>) -> bool {
    &&& style is Plain ==> out == text
    &&& !contains_reset(text) ==> (out == text || out == color_code_text(
        style_code(style),
        text,
        false,
    ))
}

/// Paints `text` with the `colored` crate (`Colorize::clear`, `bold`, the color
/// methods and the `Display` of `ColoredString`). The contract claims what that
/// crate's `Display` shows: the text itself for a plain style or when the
/// environment turns colors off, otherwise `ESC[` and the style's code, `m`, the
/// text and `ESC[0m`. What it shows of a styled text that holds a reset sequence
/// of its own is left unsaid.
#[verifier::external_body]
pub(crate) fn paint(text: &str, style: Style) -> (s: String)
    ensures
        painted(style, text@, s@),
{
    let c = match style {
        Style::Plain => text.clear(),
        Style::BrightYellowOnBlack => text.bright_yellow().on_black(),
        Style::GreenBold => text.green().bold(),
        Style::WhiteOnBrightBlue => text.white().on_bright_blue(),
        Style::CyanBold => text.cyan().bold(),
        Style::YellowBold => text.yellow().bold(),
        Style::PurpleBold => text.purple().bold(),
        Style::RedBold => text.red().bold(),
        Style::BlackOnBrightYellow => text.black().on_bright_yellow(),
    };
    c.to_string()
}

/// The text holds an ASCII digit.
pub open spec fn has_ascii_digit(t: Seq<char>) -> bool {
    exists|i: int| 0 <= i < t.len() && '0' <= #[trigger] t[i] <= '9'
}

/// The style in which a component of a regular expression is highlighted.
pub open spec fn style_for(t: Seq<char>, is_output_colorized: bool) -> Style {
    if !is_output_colorized {
        Style::Plain
    } else if has_ascii_digit(t) {
        Style::WhiteOnBrightBlue
    } else if t == "(?i)"@ {
        Style::BrightYellowOnBlack
    } else if t == "(?:"@ || t == seq!['('] || t == seq![')'] {
        Style::GreenBold
    } else if t == seq!['{'] || t == seq!['}'] || t == seq![','] {
        Style::WhiteOnBrightBlue
    } else if t == seq!['['] || t == seq![']'] || t == seq!['-'] {
        Style::CyanBold
    } else if t == seq!['^'] || t == seq!['$'] {
        Style::YellowBold
    } else if t == seq!['*'] || t == seq!['?'] {
        Style::PurpleBold
    } else if t == seq!['|'] {
        Style::RedBold
    } else if t == seq!['\\', 'd'] || t == seq!['\\', 'w'] || t == seq!['\\', 's'] || t == seq![
        '\\',
        'D',
    ] || t == seq!['\\', 'W'] || t == seq!['\\', 'S'] {
        Style::BlackOnBrightYellow
    } else {
        Style::Plain
    }
}

/// Whether the text holds an ASCII digit.
fn contains_ascii_digit(t: &str) -> (b: bool)
    ensures
        b == has_ascii_digit(t@),
{
    let cs = to_chars(t);
    let mut i: usize = 0;
    while i < cs.len()
        invariant
            i <= cs@.len(),
            cs@ == t@,
            forall|j: int| 0 <= j < i ==> !('0' <= #[trigger] t@[j] <= '9'),
        decreases cs.len() - i,
    {
        if '0' <= cs[i] && cs[i] <= '9' {
            return true;
        }
        i = i + 1;
    }
    false
}

/// The style in which a component of a regular expression is highlighted.
pub fn choose_style(t: &str, is_output_colorized: bool) -> (s: Style)
    ensures
        s == style_for(t@, is_output_colorized),
{
    if !is_output_colorized {
        return Style::Plain;
    }
    if contains_ascii_digit(t) {
        return Style::WhiteOnBrightBlue;
    }
    if str_eq(t, "(?i)") {
        return Style::BrightYellowOnBlack;
    }
    if str_eq(t, "(?:") {
        return Style::GreenBold;
    }
    let cs = to_chars(t);
    if cs.len() == 1 {
        let c = cs[0];
        proof {
            assert(t@ =~= seq![c]);
        }
        return if c == '(' || c == ')' {
            Style::GreenBold
        } else if c == '{' || c == '}' || c == ',' {
            Style::WhiteOnBrightBlue
        } else if c == '[' || c == ']' || c == '-' {
            Style::CyanBold
        } else if c == '^' || c == '$' {
            Style::YellowBold
        } else if c == '*' || c == '?' {
            Style::PurpleBold
        } else if c == '|' {
            Style::RedBold
        } else {
            Style::Plain
        };
    }
    if cs.len() == 2 && cs[0] == '\\' {
        let c = cs[1];
        proof {
            assert(t@ =~= seq!['\\', c]);
        }
        if c == 'd' || c == 'w' || c == 's' || c == 'D' || c == 'W' || c == 'S' {
            return Style::BlackOnBrightYellow;
        }
    }
    Style::Plain
}

/// Each text painted in the style of its component.
pub fn colorize(characters: &Vec<&str>, is_output_colorized: bool) -> (r: Vec<String>)
    ensures
        r@.len() == characters@.len(),
        forall|i: int|
            0 <= i < r@.len() ==> painted(
                style_for(characters@[i]@, is_output_colorized),
                characters@[i]@,
                #[trigger] r@[i]@,
            ),
{
    let mut r: Vec<String> = Vec::new();
    let mut i: usize = 0;
    while i < characters.len()
        invariant
            i <= characters@.len(),
            r@.len() == i,
            forall|j: int|
                0 <= j < i ==> painted(
                    style_for(characters@[j]@, is_output_colorized),
                    characters@[j]@,
                    #[trigger] r@[j]@,
                ),
        decreases characters.len() - i,
    {
        let style = choose_style(characters[i], is_output_colorized);
        r.push(paint(characters[i], style));
        i = i + 1;
    }
    r
}

} // verus!
