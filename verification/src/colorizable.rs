//! Strings of a regular expression that know the color they are highlighted in.
use crate::color::{paint, painted, Style};
use crate::text::{decimal, decimal_string};
use vstd::prelude::*;

verus! {

/// A string of a regular expression, by the component it is.
pub enum ColorizableString {
    Asterisk,
    CapturingLeftParenthesis,
    Caret,
    Comma,
    DigitCharClass,
    DollarSign,
    EmptyString,
    Hyphen,
    IgnoreCaseFlag,
    LeftBrace,
    LeftBracket,
    NonCapturingLeftParenthesis,
    NonDigitCharClass,
    NonSpaceCharClass,
    NonWordCharClass,
    Number(u32),
    Other(String),
    Pipe,
    QuestionMark,
    RightBrace,
    RightBracket,
    RightParenthesis,
    SpaceCharClass,
    WordCharClass,
}

impl ColorizableString {
    /// The text of the string.
    pub open spec fn text(&self) -> Seq<char> {
        match self {
            ColorizableString::Asterisk => seq!['*'],
            ColorizableString::CapturingLeftParenthesis => seq!['('],
            ColorizableString::Caret => seq!['^'],
            ColorizableString::Comma => seq![','],
            ColorizableString::DigitCharClass => seq!['\\', 'd'],
            ColorizableString::DollarSign => seq!['$'],
            ColorizableString::Hyphen => seq!['-'],
            ColorizableString::IgnoreCaseFlag => "(?i)"@,
            ColorizableString::LeftBrace => seq!['{'],
            ColorizableString::LeftBracket => seq!['['],
            ColorizableString::EmptyString => Seq::empty(),
            ColorizableString::NonCapturingLeftParenthesis => "(?:"@,
            ColorizableString::NonDigitCharClass => seq!['\\', 'D'],
            ColorizableString::NonSpaceCharClass => seq!['\\', 'S'],
            ColorizableString::NonWordCharClass => seq!['\\', 'W'],
            ColorizableString::Number(n) => decimal(*n as nat),
            ColorizableString::Other(value) => value@,
            ColorizableString::Pipe => seq!['|'],
            ColorizableString::QuestionMark => seq!['?'],
            ColorizableString::RightBrace => seq!['}'],
            ColorizableString::RightBracket => seq![']'],
            ColorizableString::RightParenthesis => seq![')'],
            ColorizableString::SpaceCharClass => seq!['\\', 's'],
            ColorizableString::WordCharClass => seq!['\\', 'w'],
        }
    }

    /// The style the string is highlighted in.
    pub open spec fn style(&self) -> Style {
        match self {
            ColorizableString::IgnoreCaseFlag => Style::BrightYellowOnBlack,
            ColorizableString::Pipe => Style::RedBold,
            ColorizableString::Asterisk | ColorizableString::QuestionMark => Style::PurpleBold,
            ColorizableString::Caret | ColorizableString::DollarSign => Style::YellowBold,
            ColorizableString::EmptyString | ColorizableString::Other(_) => Style::Plain,
            ColorizableString::NonCapturingLeftParenthesis
            | ColorizableString::CapturingLeftParenthesis
            | ColorizableString::RightParenthesis => Style::GreenBold,
            ColorizableString::Number(_) | ColorizableString::LeftBrace
            | ColorizableString::RightBrace | ColorizableString::Comma => Style::WhiteOnBrightBlue,
            ColorizableString::LeftBracket | ColorizableString::RightBracket
            | ColorizableString::Hyphen => Style::CyanBold,
            ColorizableString::DigitCharClass | ColorizableString::SpaceCharClass
            | ColorizableString::WordCharClass | ColorizableString::NonDigitCharClass
            | ColorizableString::NonSpaceCharClass | ColorizableString::NonWordCharClass =>
                Style::BlackOnBrightYellow,
        }
    }

    /// The string of a character class, or any other string.
    pub fn from(value: &str) -> (r: Self)
        ensures
            value@ == seq!['\\', 'd'] ==> r is DigitCharClass,
            value@ == seq!['\\', 's'] ==> r is SpaceCharClass,
            value@ == seq!['\\', 'w'] ==> r is WordCharClass,
            value@ == seq!['\\', 'D'] ==> r is NonDigitCharClass,
            value@ == seq!['\\', 'S'] ==> r is NonSpaceCharClass,
            value@ == seq!['\\', 'W'] ==> r is NonWordCharClass,
            !(value@ == seq!['\\', 'd'] || value@ == seq!['\\', 's'] || value@ == seq!['\\', 'w']
                || value@ == seq!['\\', 'D'] || value@ == seq!['\\', 'S'] || value@ == seq![
                '\\',
                'W',
            ]) ==> r is Other && r->Other_0@ == value@,
    {
        let cs = crate::text::to_chars(value);
        if cs.len() == 2 && cs[0] == '\\' {
            let c = cs[1];
            proof {
                assert(value@ =~= seq!['\\', c]);
            }
            if c == 'd' {
                return ColorizableString::DigitCharClass;
            } else if c == 's' {
                return ColorizableString::SpaceCharClass;
            } else if c == 'w' {
                return ColorizableString::WordCharClass;
            } else if c == 'D' {
                return ColorizableString::NonDigitCharClass;
            } else if c == 'S' {
                return ColorizableString::NonSpaceCharClass;
            } else if c == 'W' {
                return ColorizableString::NonWordCharClass;
            }
        }
        proof {
            if cs@.len() != 2 {
                assert(value@.len() != 2);
            }
        }
        ColorizableString::Other(value.to_owned())
    }

    /// The text of the string.
    pub fn to_string(&self) -> (s: String)
        ensures
            s@ == self.text(),
    {
        match self {
            ColorizableString::Asterisk => crate::text::from_chars(vec!['*'].as_slice()),
            ColorizableString::CapturingLeftParenthesis => crate::text::from_chars(
                vec!['('].as_slice(),
            ),
            ColorizableString::Caret => crate::text::from_chars(vec!['^'].as_slice()),
            ColorizableString::Comma => crate::text::from_chars(vec![','].as_slice()),
            ColorizableString::DigitCharClass => crate::text::from_chars(vec!['\\', 'd'].as_slice()),
            ColorizableString::DollarSign => crate::text::from_chars(vec!['$'].as_slice()),
            ColorizableString::Hyphen => crate::text::from_chars(vec!['-'].as_slice()),
            ColorizableString::IgnoreCaseFlag => "(?i)".to_owned(),
            ColorizableString::LeftBrace => crate::text::from_chars(vec!['{'].as_slice()),
            ColorizableString::LeftBracket => crate::text::from_chars(vec!['['].as_slice()),
            ColorizableString::EmptyString => String::new(),
            ColorizableString::NonCapturingLeftParenthesis => "(?:".to_owned(),
            ColorizableString::NonDigitCharClass => crate::text::from_chars(
                vec!['\\', 'D'].as_slice(),
            ),
            ColorizableString::NonSpaceCharClass => crate::text::from_chars(
                vec!['\\', 'S'].as_slice(),
            ),
            ColorizableString::NonWordCharClass => crate::text::from_chars(
                vec!['\\', 'W'].as_slice(),
            ),
            ColorizableString::Number(number) => decimal_string(*number),
            ColorizableString::Other(value) => value.clone(),
            ColorizableString::Pipe => crate::text::from_chars(vec!['|'].as_slice()),
            ColorizableString::QuestionMark => crate::text::from_chars(vec!['?'].as_slice()),
            ColorizableString::RightBrace => crate::text::from_chars(vec!['}'].as_slice()),
            ColorizableString::RightBracket => crate::text::from_chars(vec![']'].as_slice()),
            ColorizableString::RightParenthesis => crate::text::from_chars(vec![')'].as_slice()),
            ColorizableString::SpaceCharClass => crate::text::from_chars(vec!['\\', 's'].as_slice()),
            ColorizableString::WordCharClass => crate::text::from_chars(vec!['\\', 'w'].as_slice()),
        }
    }

    /// The style the string is highlighted in.
    fn style_of(&self) -> (s: Style)
        ensures
            s == self.style(),
    {
        match self {
            ColorizableString::IgnoreCaseFlag => Style::BrightYellowOnBlack,
            ColorizableString::Pipe => Style::RedBold,
            ColorizableString::Asterisk | ColorizableString::QuestionMark => Style::PurpleBold,
            ColorizableString::Caret | ColorizableString::DollarSign => Style::YellowBold,
            ColorizableString::EmptyString | ColorizableString::Other(_) => Style::Plain,
            ColorizableString::NonCapturingLeftParenthesis
            | ColorizableString::CapturingLeftParenthesis
            | ColorizableString::RightParenthesis => Style::GreenBold,
            ColorizableString::Number(_) | ColorizableString::LeftBrace
            | ColorizableString::RightBrace | ColorizableString::Comma => Style::WhiteOnBrightBlue,
            ColorizableString::LeftBracket | ColorizableString::RightBracket
            | ColorizableString::Hyphen => Style::CyanBold,
            ColorizableString::DigitCharClass | ColorizableString::SpaceCharClass
            | ColorizableString::WordCharClass | ColorizableString::NonDigitCharClass
            | ColorizableString::NonSpaceCharClass | ColorizableString::NonWordCharClass =>
                Style::BlackOnBrightYellow,
        }
    }

    /// The string as the terminal shows it: plain where colors are not asked for,
    /// otherwise painted in the style of its component.
    pub fn to_colorized_string(&self, is_output_colorized: bool) -> (s: String)
        ensures
            !is_output_colorized ==> s@ == self.text(),
            is_output_colorized ==> painted(self.style(), self.text(), s@),
    {
        let repr = self.to_string();
        if !is_output_colorized {
            return paint(repr.as_str(), Style::Plain);
        }
        paint(repr.as_str(), self.style_of())
    }
}

} // verus!
