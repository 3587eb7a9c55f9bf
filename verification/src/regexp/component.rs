//! The syntactic components of a regular expression, plain or highlighted with
//! terminal colors.
use crate::ast::Quantifier;
use crate::display::quantifier_char;
use crate::text::{decimal, decimal_string, from_chars, push_str, str_concat3};
use vstd::prelude::*;

verus! {

/// A syntactic component of a regular expression.
pub enum Component {
    Asterisk,
    CapturedLeftParenthesis,
    CapturedParenthesizedExpression(String),
    Caret,
    CharClass(String),
    DollarSign,
    Hyphen,
    IgnoreCaseFlag,
    IgnoreCaseAndVerboseModeFlag,
    LeftBracket,
    Pipe,
    Quantifier(Quantifier),
    QuestionMark,
    Repetition(u32),
    RepetitionRange(u32, u32),
    RightBracket,
    RightParenthesis,
    UncapturedLeftParenthesis,
    UncapturedParenthesizedExpression(String),
    VerboseModeFlag,
}

/// A value wrapped in the terminal escape sequence of a color code; when
/// `is_escaped`, the brackets and the value are preceded by backslashes so that the
/// text can stand inside a regular expression.
pub open spec fn color_code_text(code: Seq<char>, value: Seq<char>, is_escaped: bool) -> Seq<char> {
    if is_escaped {
        seq!['\u{1b}', '\\', '['] + code + seq!['m', '\\'] + value + seq!['\u{1b}', '\\', '[', '0', 'm']
    } else {
        seq!['\u{1b}', '['] + code + seq!['m'] + value + seq!['\u{1b}', '[', '0', 'm']
    }
}

/// Whether a character may stand in the code of a color escape sequence.
pub open spec fn is_code_char(c: char) -> bool {
    ('0' <= c && c <= '9') || c == ';'
}

/// The first index from `i` on whose character may not stand in a color code.
pub open spec fn code_end(t: Seq<char>, i: int) -> int
    decreases t.len() - i,
{
    if i < 0 || i >= t.len() {
        t.len() as int
    } else if is_code_char(t[i]) {
        code_end(t, i + 1)
    } else {
        i
    }
}

/// Whether a text begins with a color escape sequence: the escape character, `[`,
/// digits and semicolons, and `m`.
pub open spec fn starts_with_color_code(t: Seq<char>) -> bool {
    &&& t.len() >= 2
    &&& t[0] == '\u{1b}'
    &&& t[1] == '['
    &&& code_end(t, 2) < t.len()
    &&& t[code_end(t, 2)] == 'm'
}

/// A text without its color escape sequences, read from left to right.
pub open spec fn strip_color_codes(t: Seq<char>) -> Seq<char>
    decreases t.len(),
{
    if t.len() == 0 {
        t
    } else if starts_with_color_code(t) {
        proof {
            lemma_code_end_bounds(t, 2);
        }
        strip_color_codes(t.skip(code_end(t, 2) + 1))
    } else {
        seq![t[0]] + strip_color_codes(t.drop_first())
    }
}

/// The run of code characters from `i` ends at or after `i`, and before the end of
/// the text only at another character.
pub proof fn lemma_code_end_bounds(t: Seq<char>, i: int)
    requires
        0 <= i <= t.len(),
    ensures
        i <= code_end(t, i) <= t.len(),
        code_end(t, i) < t.len() ==> !is_code_char(t[code_end(t, i)]),
        forall|j: int| i <= j < code_end(t, i) ==> is_code_char(#[trigger] t[j]),
    decreases t.len() - i,
{
    if i < t.len() && is_code_char(t[i]) {
        lemma_code_end_bounds(t, i + 1);
    }
}

/// The run of code characters from `i` is the same in a longer text where it ends
/// before the first text does.
proof fn lemma_code_end_prefix(x: Seq<char>, y: Seq<char>, i: int)
    requires
        0 <= i <= x.len(),
        code_end(x, i) < x.len(),
    ensures
        code_end(x + y, i) == code_end(x, i),
    decreases x.len() - i,
{
    if is_code_char(x[i]) {
        lemma_code_end_prefix(x, y, i + 1);
    }
}

/// A character after which no color escape sequence can go on.
pub open spec fn closes_codes(c: char) -> bool {
    c != '\u{1b}' && c != '[' && !is_code_char(c)
}

/// A character before which no color escape sequence can have begun unfinished.
pub open spec fn opens_no_code(c: char) -> bool {
    c != '[' && c != 'm' && !is_code_char(c)
}

/// Two texts lose their color codes each on its own where no escape sequence can
/// run across their boundary: the first ends with a character that closes codes, or
/// the second begins with one that no code goes on with.
pub proof fn lemma_strip_concat(x: Seq<char>, y: Seq<char>)
    requires
        x.len() == 0 || y.len() == 0 || closes_codes(x.last()) || opens_no_code(y[0]),
    ensures
        strip_color_codes(x + y) == strip_color_codes(x) + strip_color_codes(y),
    decreases x.len(),
{
    let t = x + y;
    if x.len() == 0 {
        assert(t =~= y);
    } else if y.len() == 0 {
        assert(t =~= x);
    } else {
        if t.len() >= 2 && t[0] == '\u{1b}' && t[1] == '[' {
            lemma_code_end_bounds(t, 2);
        }
        if x.len() >= 2 && x[0] == '\u{1b}' && x[1] == '[' {
            lemma_code_end_bounds(x, 2);
        }
        if starts_with_color_code(t) {
            let k = code_end(t, 2);
            // The escape sequence lies within the first text.
            assert(k + 1 <= x.len()) by {
                if x.len() == 1 {
                    assert(t[1] == y[0]);
                } else if k >= x.len() {
                    let l = x.len() - 1;
                    if l >= 2 {
                        assert(t[l] == x.last());
                        assert(t[x.len() as int] == y[0]);
                        if k > x.len() {
                            assert(is_code_char(t[x.len() as int]));
                        }
                    } else {
                        assert(t[1] == x.last());
                        assert(t[2] == y[0]);
                        if k > 2 {
                            assert(is_code_char(t[2]));
                        }
                    }
                }
            }
            if k < x.len() {
                lemma_code_end_prefix(x, y, 2);
            } else {
                assert(k == x.len() - 1);
                assert(t[k] == x[k]);
                assert(!is_code_char(x[k]));
                lemma_code_end_bounds(x, 2);
                assert forall|j: int| 2 <= j < k implies is_code_char(#[trigger] x[j]) by {
                    assert(t[j] == x[j]);
                }
                assert(code_end(x, 2) == k) by {
                    lemma_code_end_exact(x, 2, k);
                }
            }
            assert(starts_with_color_code(x));
            assert(t.skip(k + 1) =~= x.skip(k + 1) + y);
            lemma_strip_concat(x.skip(k + 1), y);
        } else {
            if starts_with_color_code(x) {
                let k = code_end(x, 2);
                lemma_code_end_prefix(x, y, 2);
                assert(t[k] == x[k]);
            }
            assert(t.drop_first() =~= x.drop_first() + y);
            if x.drop_first().len() > 0 {
                assert(x.drop_first().last() == x.last());
            }
            lemma_strip_concat(x.drop_first(), y);
            assert(seq![t[0]] + (strip_color_codes(x.drop_first()) + strip_color_codes(y)) =~= (seq![x[0]]
                + strip_color_codes(x.drop_first())) + strip_color_codes(y));
        }
    }
}

/// The run of code characters from `i` ends at `k` where the characters before `k`
/// are code characters and the one at `k` is not.
proof fn lemma_code_end_exact(t: Seq<char>, i: int, k: int)
    requires
        0 <= i <= k < t.len(),
        !is_code_char(t[k]),
        forall|j: int| i <= j < k ==> is_code_char(#[trigger] t[j]),
    ensures
        code_end(t, i) == k,
    decreases k - i,
{
    if i < k {
        lemma_code_end_exact(t, i + 1, k);
    }
}

/// Whether each character of a text may stand in a color code.
pub open spec fn is_code(code: Seq<char>) -> bool {
    forall|j: int| 0 <= j < code.len() ==> is_code_char(#[trigger] code[j])
}

/// A color escape sequence at the start of a text is dropped with nothing else.
proof fn lemma_strip_code_prefix(code: Seq<char>, y: Seq<char>)
    requires
        is_code(code),
    ensures
        strip_color_codes(seq!['\u{1b}', '['] + code + seq!['m'] + y) == strip_color_codes(y),
{
    let t = seq!['\u{1b}', '['] + code + seq!['m'] + y;
    let k: int = code.len() as int + 2;
    assert forall|j: int| 2 <= j < k implies is_code_char(#[trigger] t[j]) by {
        assert(t[j] == code[j - 2]);
    }
    assert(t[k] == 'm');
    lemma_code_end_exact(t, 2, k);
    assert(t.skip(k + 1) =~= y);
}

/// A highlighted value followed by a text loses its color codes as the value and the
/// text do, each on its own.
pub proof fn lemma_strip_highlighted(code: Seq<char>, value: Seq<char>, y: Seq<char>)
    requires
        is_code(code),
    ensures
        strip_color_codes(color_code_text(code, value, false) + y) == strip_color_codes(value)
            + strip_color_codes(y),
{
    let reset = seq!['\u{1b}', '['] + seq!['0'] + seq!['m'];
    assert(is_code(seq!['0']));
    assert(color_code_text(code, value, false) + y =~= seq!['\u{1b}', '['] + code + seq!['m'] + (
    value + (reset + y)));
    lemma_strip_code_prefix(code, value + (reset + y));
    lemma_strip_concat(value, reset + y);
    lemma_strip_code_prefix(seq!['0'], y);
}

/// `{n}`, or the pattern `{\d+\}` for zero.
pub open spec fn repetition_text(n: u32) -> Seq<char> {
    if n == 0 {
        "{\\d+\\}"@
    } else {
        seq!['{'] + decimal(n as nat) + seq!['}']
    }
}

/// `{min,max}`, or the pattern `{\d+,\d+\}` when both are zero.
pub open spec fn repetition_range_text(min: u32, max: u32) -> Seq<char> {
    if min == 0 && max == 0 {
        "{\\d+,\\d+\\}"@
    } else {
        seq!['{'] + decimal(min as nat) + seq![','] + decimal(max as nat) + seq!['}']
    }
}

impl Component {
    /// Parenthesized expressions are built of the parenthesis components.
    pub open spec fn depth(&self) -> nat {
        match self {
            Component::CapturedParenthesizedExpression(_)
            | Component::UncapturedParenthesizedExpression(_) => 1,
            _ => 0,
        }
    }

    /// The plain text of the component.
    pub open spec fn text(&self) -> Seq<char> {
        match self {
            Component::Asterisk => seq!['*'],
            Component::CapturedLeftParenthesis => seq!['('],
            Component::CapturedParenthesizedExpression(e) => seq!['('] + e@ + seq![')'],
            Component::Caret => seq!['^'],
            Component::CharClass(v) => v@,
            Component::DollarSign => seq!['$'],
            Component::Hyphen => seq!['-'],
            Component::IgnoreCaseFlag => "(?i)"@,
            Component::IgnoreCaseAndVerboseModeFlag => "(?ix)"@,
            Component::LeftBracket => seq!['['],
            Component::Pipe => seq!['|'],
            Component::Quantifier(q) => seq![quantifier_char(*q)],
            Component::QuestionMark => seq!['?'],
            Component::Repetition(n) => repetition_text(*n),
            Component::RepetitionRange(min, max) => repetition_range_text(*min, *max),
            Component::RightBracket => seq![']'],
            Component::RightParenthesis => seq![')'],
            Component::UncapturedLeftParenthesis => "(?:"@,
            Component::UncapturedParenthesizedExpression(e) => "(?:"@ + e@ + seq![')'],
            Component::VerboseModeFlag => "(?x)"@,
        }
    }

    /// The color code of the component's highlighting.
    pub open spec fn code(&self) -> Seq<char> {
        match self {
            Component::Asterisk | Component::Quantifier(_) | Component::QuestionMark => "1;35"@,
            Component::CapturedLeftParenthesis | Component::RightParenthesis
            | Component::UncapturedLeftParenthesis => "1;32"@,
            Component::Caret | Component::DollarSign => "1;33"@,
            Component::CharClass(_) => "103;30"@,
            Component::Hyphen | Component::LeftBracket | Component::RightBracket => "1;36"@,
            Component::IgnoreCaseFlag | Component::IgnoreCaseAndVerboseModeFlag
            | Component::VerboseModeFlag => "40;93"@,
            Component::Pipe => "1;31"@,
            Component::Repetition(_) | Component::RepetitionRange(_, _) => "104;37"@,
            Component::CapturedParenthesizedExpression(_)
            | Component::UncapturedParenthesizedExpression(_) => Seq::empty(),
        }
    }

    /// The highlighted text of the component: its text in its color, and for a
    /// parenthesized expression the highlighted parentheses around the expression.
    pub open spec fn colored_text(&self, is_escaped: bool) -> Seq<char> {
        match self {
            Component::CapturedParenthesizedExpression(e) => color_code_text("1;32"@, seq!['('], is_escaped)
                + e@ + color_code_text("1;32"@, seq![')'], is_escaped),
            Component::UncapturedParenthesizedExpression(e) => color_code_text("1;32"@, "(?:"@, is_escaped)
                + e@ + color_code_text("1;32"@, seq![')'], is_escaped),
            _ => color_code_text(self.code(), self.text(), is_escaped),
        }
    }

    /// The text of the component, highlighted when `is_output_colorized`.
    pub open spec fn repr(&self, is_output_colorized: bool) -> Seq<char> {
        if is_output_colorized {
            self.colored_text(false)
        } else {
            self.text()
        }
    }

    /// The component's text, highlighted or not.
    pub fn to_repr(&self, is_output_colorized: bool) -> (s: String)
        ensures
            s@ == self.repr(is_output_colorized),
    {
        match is_output_colorized {
            true => self.to_colored_string(false),
            false => self.to_string(),
        }
    }

    /// The component's text in the terminal colors of its kind.
    pub fn to_colored_string(&self, is_escaped: bool) -> (s: String)
        ensures
            s@ == self.colored_text(is_escaped),
        decreases self.depth(),
    {
        match self {
            Component::Asterisk => Self::purple_bold(&self.to_string(), is_escaped),
            Component::CapturedLeftParenthesis => Self::green_bold(&self.to_string(), is_escaped),
            Component::CapturedParenthesizedExpression(expr) => {
                let left = Component::CapturedLeftParenthesis.to_colored_string(is_escaped);
                let right = Component::RightParenthesis.to_colored_string(is_escaped);
                str_concat3(left.as_str(), expr.as_str(), right.as_str())
            },
            Component::Caret => Self::yellow_bold(&self.to_string(), is_escaped),
            Component::CharClass(value) => Self::black_on_bright_yellow(value.as_str(), is_escaped),
            Component::DollarSign => Self::yellow_bold(&self.to_string(), is_escaped),
            Component::Hyphen => Self::cyan_bold(&self.to_string(), is_escaped),
            Component::IgnoreCaseFlag => Self::bright_yellow_on_black(&self.to_string(), is_escaped),
            Component::IgnoreCaseAndVerboseModeFlag => Self::bright_yellow_on_black(
                &self.to_string(),
                is_escaped,
            ),
            Component::LeftBracket => Self::cyan_bold(&self.to_string(), is_escaped),
            Component::Pipe => Self::red_bold(&self.to_string(), is_escaped),
            Component::Quantifier(_) => Self::purple_bold(&self.to_string(), is_escaped),
            Component::QuestionMark => Self::purple_bold(&self.to_string(), is_escaped),
            Component::Repetition(_) => Self::white_on_bright_blue(&self.to_string(), is_escaped),
            Component::RepetitionRange(_, _) => Self::white_on_bright_blue(
                &self.to_string(),
                is_escaped,
            ),
            Component::RightBracket => Self::cyan_bold(&self.to_string(), is_escaped),
            Component::RightParenthesis => Self::green_bold(&self.to_string(), is_escaped),
            Component::UncapturedLeftParenthesis => Self::green_bold(&self.to_string(), is_escaped),
            Component::UncapturedParenthesizedExpression(expr) => {
                let left = Component::UncapturedLeftParenthesis.to_colored_string(is_escaped);
                let right = Component::RightParenthesis.to_colored_string(is_escaped);
                str_concat3(left.as_str(), expr.as_str(), right.as_str())
            },
            Component::VerboseModeFlag => Self::bright_yellow_on_black(&self.to_string(), is_escaped),
        }
    }

    pub(crate) fn black_on_bright_yellow(value: &str, is_escaped: bool) -> (s: String)
        ensures
            s@ == color_code_text("103;30"@, value@, is_escaped),
    {
        Self::color_code("103;30", value, is_escaped)
    }

    pub(crate) fn bright_yellow_on_black(value: &str, is_escaped: bool) -> (s: String)
        ensures
            s@ == color_code_text("40;93"@, value@, is_escaped),
    {
        Self::color_code("40;93", value, is_escaped)
    }

    pub(crate) fn cyan_bold(value: &str, is_escaped: bool) -> (s: String)
        ensures
            s@ == color_code_text("1;36"@, value@, is_escaped),
    {
        Self::color_code("1;36", value, is_escaped)
    }

    pub(crate) fn green_bold(value: &str, is_escaped: bool) -> (s: String)
        ensures
            s@ == color_code_text("1;32"@, value@, is_escaped),
    {
        Self::color_code("1;32", value, is_escaped)
    }

    pub(crate) fn purple_bold(value: &str, is_escaped: bool) -> (s: String)
        ensures
            s@ == color_code_text("1;35"@, value@, is_escaped),
    {
        Self::color_code("1;35", value, is_escaped)
    }

    pub(crate) fn red_bold(value: &str, is_escaped: bool) -> (s: String)
        ensures
            s@ == color_code_text("1;31"@, value@, is_escaped),
    {
        Self::color_code("1;31", value, is_escaped)
    }

    pub(crate) fn white_on_bright_blue(value: &str, is_escaped: bool) -> (s: String)
        ensures
            s@ == color_code_text("104;37"@, value@, is_escaped),
    {
        Self::color_code("104;37", value, is_escaped)
    }

    pub(crate) fn yellow_bold(value: &str, is_escaped: bool) -> (s: String)
        ensures
            s@ == color_code_text("1;33"@, value@, is_escaped),
    {
        Self::color_code("1;33", value, is_escaped)
    }

    /// `value` wrapped in the escape sequence of color `code`.
    pub fn color_code(code: &str, value: &str, is_escaped: bool) -> (s: String)
        ensures
            s@ == color_code_text(code@, value@, is_escaped),
    {
        let mut out: Vec<char> = Vec::new();
        out.push('\u{1b}');
        if is_escaped {
            out.push('\\');
        }
        out.push('[');
        push_str(&mut out, code);
        out.push('m');
        if is_escaped {
            out.push('\\');
        }
        push_str(&mut out, value);
        out.push('\u{1b}');
        if is_escaped {
            out.push('\\');
        }
        out.push('[');
        out.push('0');
        out.push('m');
        assert(out@ =~= color_code_text(code@, value@, is_escaped));
        from_chars(out.as_slice())
    }

    /// The plain text of the component.
    pub fn to_string(&self) -> (s: String)
        ensures
            s@ == self.text(),
        decreases self.depth(),
    {
        match self {
            Component::Asterisk => from_chars(vec!['*'].as_slice()),
            Component::CapturedLeftParenthesis => from_chars(vec!['('].as_slice()),
            Component::CapturedParenthesizedExpression(expr) => str_concat3(
                Component::CapturedLeftParenthesis.to_string().as_str(),
                expr.as_str(),
                Component::RightParenthesis.to_string().as_str(),
            ),
            Component::Caret => from_chars(vec!['^'].as_slice()),
            Component::CharClass(value) => value.clone(),
            Component::DollarSign => from_chars(vec!['$'].as_slice()),
            Component::Hyphen => from_chars(vec!['-'].as_slice()),
            Component::IgnoreCaseFlag => "(?i)".to_owned(),
            Component::IgnoreCaseAndVerboseModeFlag => "(?ix)".to_owned(),
            Component::LeftBracket => from_chars(vec!['['].as_slice()),
            Component::Pipe => from_chars(vec!['|'].as_slice()),
            Component::Quantifier(quantifier) => quantifier.to_string(),
            Component::QuestionMark => from_chars(vec!['?'].as_slice()),
            Component::Repetition(num) => {
                if *num == 0 {
                    "{\\d+\\}".to_owned()
                } else {
                    let digits = decimal_string(*num);
                    let mut out: Vec<char> = Vec::new();
                    out.push('{');
                    push_str(&mut out, digits.as_str());
                    out.push('}');
                    assert(out@ =~= repetition_text(*num));
                    from_chars(out.as_slice())
                }
            },
            Component::RepetitionRange(min, max) => {
                if *min == 0 && *max == 0 {
                    "{\\d+,\\d+\\}".to_owned()
                } else {
                    let lo = decimal_string(*min);
                    let hi = decimal_string(*max);
                    let mut out: Vec<char> = Vec::new();
                    out.push('{');
                    push_str(&mut out, lo.as_str());
                    out.push(',');
                    push_str(&mut out, hi.as_str());
                    out.push('}');
                    assert(out@ =~= repetition_range_text(*min, *max));
                    from_chars(out.as_slice())
                }
            },
            Component::RightBracket => from_chars(vec![']'].as_slice()),
            Component::RightParenthesis => from_chars(vec![')'].as_slice()),
            Component::UncapturedLeftParenthesis => "(?:".to_owned(),
            Component::UncapturedParenthesizedExpression(expr) => str_concat3(
                Component::UncapturedLeftParenthesis.to_string().as_str(),
                expr.as_str(),
                Component::RightParenthesis.to_string().as_str(),
            ),
            Component::VerboseModeFlag => "(?x)".to_owned(),
        }
    }
}

impl Component {
    /// The color code of each component is made of digits and semicolons.
    proof fn lemma_code_is_code(&self)
        ensures
            is_code(self.code()),
    {
        reveal_strlit("1;35");
        reveal_strlit("1;32");
        reveal_strlit("1;33");
        reveal_strlit("103;30");
        reveal_strlit("1;36");
        reveal_strlit("40;93");
        reveal_strlit("1;31");
        reveal_strlit("104;37");
    }

    /// Highlighting adds color codes and nothing else: without its color codes, the
    /// highlighted text of a component is its plain text without them.
    pub proof fn lemma_colors_strip_to_text(&self)
        ensures
            strip_color_codes(self.colored_text(false)) == strip_color_codes(self.text()),
    {
        reveal_strlit("1;32");
        reveal_strlit("(?:");
        assert(is_code("1;32"@));
        let empty = Seq::<char>::empty();
        match self {
            Component::CapturedParenthesizedExpression(e) => {
                let open = seq!['('];
                let close = seq![')'];
                lemma_strip_highlighted("1;32"@, open, e@);
                lemma_strip_highlighted("1;32"@, close, empty);
                assert(color_code_text("1;32"@, close, false) + empty =~= color_code_text(
                    "1;32"@,
                    close,
                    false,
                ));
                lemma_strip_concat(color_code_text("1;32"@, open, false) + e@, color_code_text("1;32"@, close, false));
                lemma_strip_concat(open + e@, close);
                lemma_strip_concat(open, e@);
                assert(strip_color_codes(empty) =~= empty);
            },
            Component::UncapturedParenthesizedExpression(e) => {
                let open = "(?:"@;
                let close = seq![')'];
                lemma_strip_highlighted("1;32"@, open, e@);
                lemma_strip_highlighted("1;32"@, close, empty);
                assert(color_code_text("1;32"@, close, false) + empty =~= color_code_text(
                    "1;32"@,
                    close,
                    false,
                ));
                lemma_strip_concat(color_code_text("1;32"@, open, false) + e@, color_code_text("1;32"@, close, false));
                lemma_strip_concat(open + e@, close);
                lemma_strip_concat(open, e@);
                assert(strip_color_codes(empty) =~= empty);
            },
            _ => {
                self.lemma_code_is_code();
                lemma_strip_highlighted(self.code(), self.text(), empty);
                assert(color_code_text(self.code(), self.text(), false) + empty =~= color_code_text(
                    self.code(),
                    self.text(),
                    false,
                ));
                assert(strip_color_codes(self.text()) + strip_color_codes(empty) =~= strip_color_codes(self.text()));
            },
        }
    }
}

} // verus!
