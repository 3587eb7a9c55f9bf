//! The syntactic components of a regular expression in its compact and in its
//! verbose layout, where components are set on lines of their own.
use crate::ast::Quantifier;
use crate::display::quantifier_char;
use crate::regexp::component::{
    closes_codes, color_code_text, is_code, lemma_strip_concat, lemma_strip_highlighted,
    opens_no_code, repetition_range_text, repetition_text, strip_color_codes, Component as Styled,
};
use crate::text::{from_chars, push_str};
use vstd::prelude::*;

verus! {

broadcast use vstd::seq::group_seq_axioms, vstd::seq_lib::group_seq_properties;

/// A syntactic component; the flags say whether the verbose layout is used and,
/// for a parenthesized expression, whether a line break follows it.
pub enum Component {
    CapturedLeftParenthesis,
    CapturedParenthesizedExpression(String, bool, bool),
    Caret(bool),
    CharClass(String),
    DollarSign(bool),
    Hyphen,
    IgnoreCaseFlag,
    IgnoreCaseAndVerboseModeFlag,
    LeftBracket,
    Pipe,
    Quantifier(Quantifier, bool),
    Repetition(u32, bool),
    RepetitionRange(u32, u32, bool),
    RightBracket,
    RightParenthesis,
    UncapturedLeftParenthesis,
    UncapturedParenthesizedExpression(String, bool, bool),
    VerboseModeFlag,
}

/// A line break where `b` holds.
pub open spec fn line_break(b: bool) -> Seq<char> {
    if b {
        seq!['\n']
    } else {
        Seq::empty()
    }
}

/// An expression between two parentheses; in the verbose layout each of the three
/// stands on a line of its own.
pub open spec fn group_text(
    open: Seq<char>,
    expr: Seq<char>,
    close: Seq<char>,
    is_verbose_mode_enabled: bool,
    has_final_line_break: bool,
) -> Seq<char> {
    if is_verbose_mode_enabled {
        seq!['\n'] + open + seq!['\n'] + expr + seq!['\n'] + close + line_break(has_final_line_break)
    } else {
        open + expr + close
    }
}

/// The text of a parenthesized expression component, captured or not, highlighted
/// where `is_output_colorized`.
pub open spec fn parenthesized_repr(
    capturing: bool,
    expr: Seq<char>,
    is_verbose_mode_enabled: bool,
    has_final_line_break: bool,
    is_output_colorized: bool,
) -> Seq<char> {
    let open = if capturing {
        seq!['(']
    } else {
        "(?:"@
    };
    if is_output_colorized {
        group_text(
            color_code_text("1;32"@, open, false),
            expr,
            color_code_text("1;32"@, seq![')'], false),
            is_verbose_mode_enabled,
            has_final_line_break,
        )
    } else {
        group_text(open, expr, seq![')'], is_verbose_mode_enabled, has_final_line_break)
    }
}

impl Component {
    /// Parenthesized expressions are built of the parenthesis components.
    pub open spec fn depth(&self) -> nat {
        match self {
            Component::CapturedParenthesizedExpression(_, _, _)
            | Component::UncapturedParenthesizedExpression(_, _, _) => 1,
            _ => 0,
        }
    }

    /// The plain text of the component.
    pub open spec fn text(&self) -> Seq<char> {
        match self {
            Component::CapturedLeftParenthesis => seq!['('],
            Component::CapturedParenthesizedExpression(e, v, f) => group_text(
                seq!['('],
                e@,
                seq![')'],
                *v,
                *f,
            ),
            Component::Caret(v) => seq!['^'] + line_break(*v),
            Component::CharClass(value) => value@,
            Component::DollarSign(v) => line_break(*v) + seq!['$'],
            Component::Hyphen => seq!['-'],
            Component::IgnoreCaseFlag => "(?i)"@,
            Component::IgnoreCaseAndVerboseModeFlag => "(?ix)"@ + seq!['\n'],
            Component::LeftBracket => seq!['['],
            Component::Pipe => seq!['|'],
            Component::Quantifier(q, v) => seq![quantifier_char(*q)] + line_break(*v),
            Component::Repetition(n, v) => repetition_text(*n) + line_break(*v),
            Component::RepetitionRange(min, max, v) => repetition_range_text(*min, *max)
                + line_break(*v),
            Component::RightBracket => seq![']'],
            Component::RightParenthesis => seq![')'],
            Component::UncapturedLeftParenthesis => "(?:"@,
            Component::UncapturedParenthesizedExpression(e, v, f) => group_text(
                "(?:"@,
                e@,
                seq![')'],
                *v,
                *f,
            ),
            Component::VerboseModeFlag => "(?x)"@ + seq!['\n'],
        }
    }

    /// The highlighted text of the component: the color wraps the component's own
    /// characters, and line breaks of the verbose layout stay outside it.
    pub open spec fn colored_text(&self, is_escaped: bool) -> Seq<char> {
        match self {
            Component::CapturedLeftParenthesis => color_code_text("1;32"@, seq!['('], is_escaped),
            Component::CapturedParenthesizedExpression(e, v, f) => group_text(
                color_code_text("1;32"@, seq!['('], is_escaped),
                e@,
                color_code_text("1;32"@, seq![')'], is_escaped),
                *v,
                *f,
            ),
            Component::Caret(v) => color_code_text("1;33"@, seq!['^'], is_escaped) + line_break(*v),
            Component::CharClass(value) => color_code_text("103;30"@, value@, is_escaped),
            Component::DollarSign(v) => line_break(*v) + color_code_text(
                "1;33"@,
                seq!['$'],
                is_escaped,
            ),
            Component::Hyphen => color_code_text("1;36"@, seq!['-'], is_escaped),
            Component::IgnoreCaseFlag => color_code_text("40;93"@, "(?i)"@, is_escaped),
            Component::IgnoreCaseAndVerboseModeFlag => color_code_text(
                "40;93"@,
                "(?ix)"@,
                is_escaped,
            ) + seq!['\n'],
            Component::LeftBracket => color_code_text("1;36"@, seq!['['], is_escaped),
            Component::Pipe => color_code_text("1;31"@, seq!['|'], is_escaped),
            Component::Quantifier(q, v) => color_code_text(
                "1;35"@,
                seq![quantifier_char(*q)],
                is_escaped,
            ) + line_break(*v),
            Component::Repetition(n, v) => color_code_text("104;37"@, repetition_text(*n), is_escaped)
                + line_break(*v),
            Component::RepetitionRange(min, max, v) => color_code_text(
                "104;37"@,
                repetition_range_text(*min, *max),
                is_escaped,
            ) + line_break(*v),
            Component::RightBracket => color_code_text("1;36"@, seq![']'], is_escaped),
            Component::RightParenthesis => color_code_text("1;32"@, seq![')'], is_escaped),
            Component::UncapturedLeftParenthesis => color_code_text("1;32"@, "(?:"@, is_escaped),
            Component::UncapturedParenthesizedExpression(e, v, f) => group_text(
                color_code_text("1;32"@, "(?:"@, is_escaped),
                e@,
                color_code_text("1;32"@, seq![')'], is_escaped),
                *v,
                *f,
            ),
            Component::VerboseModeFlag => color_code_text("40;93"@, "(?x)"@, is_escaped) + seq!['\n'],
        }
    }

    /// The text of the component, highlighted when `is_output_colorized`.
    pub open spec fn repr(&self, is_output_colorized: bool) -> Seq<char> {
        if is_output_colorized {
            self.colored_text(false)
        } else {
            self.text()
        }
    }

    /// The component's text, highlighted or not.
    pub fn to_repr(&self, is_output_colorized: bool) -> (s: String)
        ensures
            s@ == self.repr(is_output_colorized),
    {
        match is_output_colorized {
            true => self.to_colored_string(false),
            false => self.to_string(),
        }
    }

    /// The component's text in the terminal colors of its kind.
    pub fn to_colored_string(&self, is_escaped: bool) -> (s: String)
        ensures
            s@ == self.colored_text(is_escaped),
        decreases self.depth(),
    {
        let mut out: Vec<char> = Vec::new();
        match self {
            Component::CapturedLeftParenthesis => {
                return Styled::green_bold(&self.to_string(), is_escaped);
            },
            Component::CapturedParenthesizedExpression(expr, v, f) => {
                let left = Component::CapturedLeftParenthesis.to_colored_string(is_escaped);
                let right = Component::RightParenthesis.to_colored_string(is_escaped);
                push_group(&mut out, left.as_str(), expr.as_str(), right.as_str(), *v, *f);
            },
            Component::Caret(v) => {
                let caret = Component::Caret(false).to_string();
                push_str(&mut out, Styled::yellow_bold(&caret, is_escaped).as_str());
                if *v {
                    out.push('\n');
                }
            },
            Component::CharClass(value) => {
                return Styled::black_on_bright_yellow(value.as_str(), is_escaped);
            },
            Component::DollarSign(v) => {
                if *v {
                    out.push('\n');
                }
                let dollar = Component::DollarSign(false).to_string();
                push_str(&mut out, Styled::yellow_bold(&dollar, is_escaped).as_str());
            },
            Component::Hyphen => {
                return Styled::cyan_bold(&self.to_string(), is_escaped);
            },
            Component::IgnoreCaseFlag => {
                return Styled::bright_yellow_on_black(&self.to_string(), is_escaped);
            },
            Component::IgnoreCaseAndVerboseModeFlag => {
                push_str(&mut out, Styled::bright_yellow_on_black("(?ix)", is_escaped).as_str());
                out.push('\n');
            },
            Component::LeftBracket => {
                return Styled::cyan_bold(&self.to_string(), is_escaped);
            },
            Component::Pipe => {
                return Styled::red_bold(&self.to_string(), is_escaped);
            },
            Component::Quantifier(quantifier, v) => {
                let q = quantifier.to_string();
                push_str(&mut out, Styled::purple_bold(&q, is_escaped).as_str());
                if *v {
                    out.push('\n');
                }
            },
            Component::Repetition(num, v) => {
                let r = Component::Repetition(*num, false).to_string();
                push_str(&mut out, Styled::white_on_bright_blue(&r, is_escaped).as_str());
                if *v {
                    out.push('\n');
                }
            },
            Component::RepetitionRange(min, max, v) => {
                let r = Component::RepetitionRange(*min, *max, false).to_string();
                push_str(&mut out, Styled::white_on_bright_blue(&r, is_escaped).as_str());
                if *v {
                    out.push('\n');
                }
            },
            Component::RightBracket => {
                return Styled::cyan_bold(&self.to_string(), is_escaped);
            },
            Component::RightParenthesis => {
                return Styled::green_bold(&self.to_string(), is_escaped);
            },
            Component::UncapturedLeftParenthesis => {
                return Styled::green_bold(&self.to_string(), is_escaped);
            },
            Component::UncapturedParenthesizedExpression(expr, v, f) => {
                let left = Component::UncapturedLeftParenthesis.to_colored_string(is_escaped);
                let right = Component::RightParenthesis.to_colored_string(is_escaped);
                push_group(&mut out, left.as_str(), expr.as_str(), right.as_str(), *v, *f);
            },
            Component::VerboseModeFlag => {
                push_str(&mut out, Styled::bright_yellow_on_black("(?x)", is_escaped).as_str());
                out.push('\n');
            },
        }
        assert(out@ =~= self.colored_text(is_escaped));
        from_chars(out.as_slice())
    }

    /// The plain text of the component.
    pub fn to_string(&self) -> (s: String)
        ensures
            s@ == self.text(),
        decreases self.depth(),
    {
        let mut out: Vec<char> = Vec::new();
        match self {
            Component::CapturedLeftParenthesis => out.push('('),
            Component::CapturedParenthesizedExpression(expr, v, f) => {
                push_group(&mut out, "(", expr.as_str(), ")", *v, *f);
                proof {
                    reveal_strlit("(");
                    reveal_strlit(")");
                }
            },
            Component::Caret(v) => {
                out.push('^');
                if *v {
                    out.push('\n');
                }
            },
            Component::CharClass(value) => push_str(&mut out, value.as_str()),
            Component::DollarSign(v) => {
                if *v {
                    out.push('\n');
                }
                out.push('$');
            },
            Component::Hyphen => out.push('-'),
            Component::IgnoreCaseFlag => push_str(&mut out, "(?i)"),
            Component::IgnoreCaseAndVerboseModeFlag => {
                push_str(&mut out, "(?ix)");
                out.push('\n');
            },
            Component::LeftBracket => out.push('['),
            Component::Pipe => out.push('|'),
            Component::Quantifier(quantifier, v) => {
                out.push(quantifier.to_char());
                if *v {
                    out.push('\n');
                }
            },
            Component::Repetition(num, v) => {
                push_str(&mut out, Styled::Repetition(*num).to_string().as_str());
                if *v {
                    out.push('\n');
                }
            },
            Component::RepetitionRange(min, max, v) => {
                push_str(&mut out, Styled::RepetitionRange(*min, *max).to_string().as_str());
                if *v {
                    out.push('\n');
                }
            },
            Component::RightBracket => out.push(']'),
            Component::RightParenthesis => out.push(')'),
            Component::UncapturedLeftParenthesis => push_str(&mut out, "(?:"),
            Component::UncapturedParenthesizedExpression(expr, v, f) => {
                push_group(&mut out, "(?:", expr.as_str(), ")", *v, *f);
                proof {
                    reveal_strlit(")");
                }
            },
            Component::VerboseModeFlag => {
                push_str(&mut out, "(?x)");
                out.push('\n');
            },
        }
        assert(out@ =~= self.text());
        from_chars(out.as_slice())
    }
}

/// Appends an expression between two parentheses, each on a line of its own in the
/// verbose layout.
fn push_group(
    out: &mut Vec<char>,
    open: &str,
    expr: &str,
    close: &str,
    is_verbose_mode_enabled: bool,
    has_final_line_break: bool,
)
    ensures
        final(out)@ == old(out)@ + group_text(
            open@,
            expr@,
            close@,
            is_verbose_mode_enabled,
            has_final_line_break,
        ),
{
    if is_verbose_mode_enabled {
        out.push('\n');
        push_str(out, open);
        out.push('\n');
        push_str(out, expr);
        out.push('\n');
        push_str(out, close);
        if has_final_line_break {
            out.push('\n');
        }
    } else {
        push_str(out, open);
        push_str(out, expr);
        push_str(out, close);
    }
    assert(final(out)@ =~= old(out)@ + group_text(
        open@,
        expr@,
        close@,
        is_verbose_mode_enabled,
        has_final_line_break,
    ));
}

/// A line break, or nothing, holds no color code.
proof fn lemma_strip_line_break(b: bool)
    ensures
        strip_color_codes(line_break(b)) == line_break(b),
        line_break(b).len() == 0 || opens_no_code(line_break(b)[0]),
{
    if b {
        assert(strip_color_codes(seq!['\n']) =~= seq!['\n'] + strip_color_codes(Seq::<char>::empty()));
    }
}

/// An expression between parentheses loses its color codes as the parentheses and the
/// expression do, each on its own, in either layout.
proof fn lemma_strip_group(
    open: Seq<char>,
    e: Seq<char>,
    close: Seq<char>,
    v: bool,
    f: bool,
)
    requires
        open.len() > 0,
        close.len() > 0,
        opens_no_code(open[0]),
        closes_codes(open.last()),
        opens_no_code(close[0]),
    ensures
        strip_color_codes(group_text(open, e, close, v, f)) == if v {
            strip_color_codes(seq!['\n']) + strip_color_codes(open) + strip_color_codes(seq!['\n'])
                + strip_color_codes(e) + strip_color_codes(seq!['\n']) + strip_color_codes(close)
                + line_break(f)
        } else {
            strip_color_codes(open) + strip_color_codes(e) + strip_color_codes(close)
        },
{
    let nl = seq!['\n'];
    lemma_strip_line_break(f);
    if v {
        let x1 = nl + open;
        let x2 = x1 + nl;
        let x3 = x2 + e;
        let x4 = x3 + nl;
        let x5 = x4 + close;
        assert(group_text(open, e, close, v, f) =~= x5 + line_break(f));
        lemma_strip_concat(x5, line_break(f));
        lemma_strip_concat(x4, close);
        lemma_strip_concat(x3, nl);
        assert(x2.last() == '\n');
        lemma_strip_concat(x2, e);
        lemma_strip_concat(x1, nl);
        lemma_strip_concat(nl, open);
    } else {
        assert(group_text(open, e, close, v, f) =~= (open + e) + close);
        lemma_strip_concat(open + e, close);
        lemma_strip_concat(open, e);
    }
}

impl Component {
    /// Highlighting adds color codes and nothing else: without its color codes, the
    /// highlighted text of a component is its plain text without them, in either
    /// layout.
    pub proof fn lemma_colors_strip_to_text(&self)
        ensures
            strip_color_codes(self.colored_text(false)) == strip_color_codes(self.text()),
    {
        reveal_strlit("1;32");
        reveal_strlit("1;33");
        reveal_strlit("103;30");
        reveal_strlit("1;36");
        reveal_strlit("40;93");
        reveal_strlit("1;31");
        reveal_strlit("1;35");
        reveal_strlit("104;37");
        reveal_strlit("(?:");
        reveal_strlit("(?i)");
        reveal_strlit("(?ix)");
        reveal_strlit("(?x)");
        let empty = Seq::<char>::empty();
        let g = "1;32"@;
        assert(is_code(g));
        match self {
            Component::CapturedParenthesizedExpression(e, v, f) => {
                let open = seq!['('];
                let close = seq![')'];
                lemma_strip_group(open, e@, close, *v, *f);
                lemma_strip_group(color_code_text(g, open, false), e@, color_code_text(g, close, false), *v, *f);
                lemma_strip_highlighted(g, open, empty);
                lemma_strip_highlighted(g, close, empty);
                assert(color_code_text(g, open, false) + empty =~= color_code_text(g, open, false));
                assert(color_code_text(g, close, false) + empty =~= color_code_text(g, close, false));
                assert(strip_color_codes(empty) =~= empty);
            },
            Component::UncapturedParenthesizedExpression(e, v, f) => {
                let open = "(?:"@;
                let close = seq![')'];
                lemma_strip_group(open, e@, close, *v, *f);
                lemma_strip_group(color_code_text(g, open, false), e@, color_code_text(g, close, false), *v, *f);
                lemma_strip_highlighted(g, open, empty);
                lemma_strip_highlighted(g, close, empty);
                assert(color_code_text(g, open, false) + empty =~= color_code_text(g, open, false));
                assert(color_code_text(g, close, false) + empty =~= color_code_text(g, close, false));
                assert(strip_color_codes(empty) =~= empty);
            },
            Component::Caret(v) => {
                lemma_strip_line_break(*v);
                lemma_strip_highlighted("1;33"@, seq!['^'], line_break(*v));
                lemma_strip_concat(seq!['^'], line_break(*v));
            },
            Component::DollarSign(v) => {
                let c = color_code_text("1;33"@, seq!['$'], false);
                lemma_strip_line_break(*v);
                lemma_strip_concat(line_break(*v), c);
                lemma_strip_concat(line_break(*v), seq!['$']);
                lemma_strip_highlighted("1;33"@, seq!['$'], empty);
                assert(c + empty =~= c);
                assert(strip_color_codes(empty) =~= empty);
            },
            Component::IgnoreCaseAndVerboseModeFlag => {
                lemma_strip_highlighted("40;93"@, "(?ix)"@, seq!['\n']);
                lemma_strip_concat("(?ix)"@, seq!['\n']);
            },
            Component::VerboseModeFlag => {
                lemma_strip_highlighted("40;93"@, "(?x)"@, seq!['\n']);
                lemma_strip_concat("(?x)"@, seq!['\n']);
            },
            Component::Quantifier(q, v) => {
                lemma_strip_line_break(*v);
                lemma_strip_highlighted("1;35"@, seq![quantifier_char(*q)], line_break(*v));
                lemma_strip_concat(seq![quantifier_char(*q)], line_break(*v));
            },
            Component::Repetition(n, v) => {
                lemma_strip_line_break(*v);
                lemma_strip_highlighted("104;37"@, repetition_text(*n), line_break(*v));
                lemma_strip_concat(repetition_text(*n), line_break(*v));
            },
            Component::RepetitionRange(min, max, v) => {
                lemma_strip_line_break(*v);
                lemma_strip_highlighted("104;37"@, repetition_range_text(*min, *max), line_break(*v));
                lemma_strip_concat(repetition_range_text(*min, *max), line_break(*v));
            },
            _ => {
                let code = match self {
                    Component::CharClass(_) => "103;30"@,
                    Component::Hyphen | Component::LeftBracket | Component::RightBracket => "1;36"@,
                    Component::IgnoreCaseFlag => "40;93"@,
                    Component::Pipe => "1;31"@,
                    _ => g,
                };
                assert(self.colored_text(false) == color_code_text(code, self.text(), false));
                lemma_strip_highlighted(code, self.text(), empty);
                assert(color_code_text(code, self.text(), false) + empty =~= self.colored_text(false));
                assert(strip_color_codes(self.text()) + strip_color_codes(empty) =~= strip_color_codes(
                    self.text(),
                ));
            },
        }
    }
}

} // verus!
