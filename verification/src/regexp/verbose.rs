//! The verbose layout of a regular expression, in which each component stands on
//! a line of its own, indented by its nesting.
use crate::ast::{strings_view, ExprModel, Expression};
use crate::component::parenthesized_repr;
use crate::display::render;
use crate::regexp::component::{color_code_text, repetition_range_text, repetition_text, Component};
use crate::regexp::config::RegExpConfig;
use crate::regexp::{begins_with, has_char, join_lines, shown_flag, spaces};
use crate::text::{from_chars, push_str, to_chars};
use regex::Regex;
use vstd::prelude::*;

verus! {

broadcast use vstd::seq::group_seq_axioms, vstd::seq_lib::group_seq_properties;

/// The texts of the leftmost non-overlapping matches of a pattern in a text, as
/// `regex::Regex::find_iter` finds them; `None` where the pattern is not a regular
/// expression that the crate accepts.
pub uninterp spec fn regex_find_all(pattern: Seq<char>, text: Seq<char>) -> Option<Seq<Seq<char>>>;

/// The text with every match of a pattern replaced, as `regex::Regex::replace_all`
/// replaces them; `None` where the pattern is not accepted.
pub uninterp spec fn regex_replace_all(pattern: Seq<char>, text: Seq<char>, replacement: Seq<char>) -> Option<
    Seq<char>,
>;

/// Compiles `pattern` with `regex::Regex::new` and collects the texts of the matches
/// of `regex::Regex::find_iter` in `text`. The contract claims that the result is
/// named by `regex_find_all`: the crate's matches depend on the pattern and the text
/// alone.
#[verifier::external_body]
pub(crate) fn find_all(pattern: &str, text: &str) -> (r: Option<Vec<String>>)
    ensures
        match r {
            Some(v) => regex_find_all(pattern@, text@) == Some(strings_view(v@)),
            None => regex_find_all(pattern@, text@) is None,
        },
{
    match Regex::new(pattern) {
        Ok(re) => Some(re.find_iter(text).map(|m| m.as_str().to_string()).collect()),
        Err(_) => None,
    }
}

/// Compiles `pattern` with `regex::Regex::new` and replaces its matches in `text`
/// with `regex::Regex::replace_all`. The contract claims that the result is named by
/// `regex_replace_all`.
#[verifier::external_body]
fn replace_all(pattern: &str, text: &str, replacement: &str) -> (r: Option<String>)
    ensures
        match r {
            Some(s) => regex_replace_all(pattern@, text@, replacement@) == Some(s@),
            None => regex_replace_all(pattern@, text@, replacement@) is None,
        },
{
    match Regex::new(pattern) {
        Ok(re) => Some(re.replace_all(text, replacement).to_string()),
        Err(_) => None,
    }
}

/// The text with each occurrence of `pat`, from left to right and without overlaps,
/// replaced by `rep`, as `str::replace` does.
pub open spec fn replace_str(t: Seq<char>, pat: Seq<char>, rep: Seq<char>) -> Seq<char>
    recommends
        pat.len() > 0,
    decreases t.len(),
{
    if t.len() == 0 || pat.len() == 0 {
        t
    } else if pat.len() <= t.len() && t.subrange(0, pat.len() as int) == pat {
        rep + replace_str(t.subrange(pat.len() as int, t.len() as int), pat, rep)
    } else {
        seq![t[0]] + replace_str(t.drop_first(), pat, rep)
    }
}

/// A whitespace character that the verbose layout writes `\s`.
pub open spec fn is_layout_space(c: char) -> bool {
    c == '\u{85}' || c == '\u{a0}' || c == '\u{1680}' || ('\u{2000}' <= c && c <= '\u{200b}') || c
        == '\u{2028}' || c == '\u{2029}' || c == '\u{202f}' || c == '\u{205f}' || c == '\u{3000}'
}

/// The number sign, whitespace and the space escaped for the verbose layout.
pub open spec fn layout_escaped(s: Seq<char>) -> Seq<char>
    decreases s.len(),
{
    if s.len() == 0 {
        Seq::empty()
    } else {
        layout_escaped(s.drop_last()) + if s.last() == '#' {
            seq!['\\', '#']
        } else if is_layout_space(s.last()) {
            seq!['\\', 's']
        } else if s.last() == ' ' {
            seq!['\\', ' ']
        } else {
            seq![s.last()]
        }
    }
}

/// The nesting level and the indented lines after the first `k` components;
/// `None` where a component would close more groups than are open.
pub open spec fn layout_state(els: Seq<Seq<char>>, k: int, start: nat, colored: bool) -> Option<
    (nat, Seq<Seq<char>>),
>
    decreases k,
{
    if k <= 0 {
        Some((start, Seq::empty()))
    } else {
        match layout_state(els, k - 1, start, colored) {
            None => None,
            Some(st) => {
                let e = els[k - 1];
                if e.len() == 0 {
                    Some(st)
                } else {
                    let is_colored = begins_with(e, seq!['\u{1b}', '[']);
                    let closes = if colored {
                        is_colored && (has_char(e, '$') || has_char(e, ')'))
                    } else {
                        e == seq!['$'] || begins_with(e, seq![')'])
                    };
                    if closes && st.0 == 0 {
                        None
                    } else {
                        let n: nat = if closes {
                            (st.0 - 1) as nat
                        } else {
                            st.0
                        };
                        let opens = if colored {
                            is_colored && (has_char(e, '^') || has_char(e, '('))
                        } else {
                            e == seq!['^'] || begins_with(e, seq!['('])
                        };
                        Some(
                            (
                                if opens {
                                    n + 1
                                } else {
                                    n
                                },
                                st.1.push(spaces(2 * n) + e),
                            ),
                        )
                    }
                }
            },
        }
    }
}

/// A component highlighted and escaped for use inside a pattern.
pub open spec fn escaped_color(code: Seq<char>, text: Seq<char>) -> Seq<char> {
    color_code_text(code, text, true)
}

pub open spec fn asterisk() -> Seq<char> {
    escaped_color("1;35"@, seq!['*'])
}

pub open spec fn digit() -> Seq<char> {
    escaped_color("103;30"@, "\\d"@)
}

pub open spec fn hyphen() -> Seq<char> {
    escaped_color("1;36"@, seq!['-'])
}

pub open spec fn left_bracket() -> Seq<char> {
    escaped_color("1;36"@, seq!['['])
}

pub open spec fn non_digit() -> Seq<char> {
    escaped_color("103;30"@, "\\D"@)
}

pub open spec fn non_space() -> Seq<char> {
    escaped_color("103;30"@, "\\S"@)
}

pub open spec fn non_word() -> Seq<char> {
    escaped_color("103;30"@, "\\W"@)
}

pub open spec fn question_mark() -> Seq<char> {
    escaped_color("1;35"@, seq!['?'])
}

pub open spec fn repetition() -> Seq<char> {
    escaped_color("104;37"@, repetition_text(0))
}

pub open spec fn repetition_range() -> Seq<char> {
    escaped_color("104;37"@, repetition_range_text(0, 0))
}

pub open spec fn right_bracket() -> Seq<char> {
    escaped_color("1;36"@, seq![']'])
}

pub open spec fn right_parenthesis() -> Seq<char> {
    escaped_color("1;32"@, seq![')'])
}

pub open spec fn space() -> Seq<char> {
    escaped_color("103;30"@, "\\s"@)
}

pub open spec fn word() -> Seq<char> {
    escaped_color("103;30"@, "\\w"@)
}

/// Texts separated by `|`.
pub open spec fn alternatives(ps: Seq<Seq<char>>) -> Seq<char>
    decreases ps.len(),
{
    if ps.len() == 0 {
        Seq::empty()
    } else if ps.len() == 1 {
        ps[0]
    } else {
        alternatives(ps.drop_last()) + seq!['|'] + ps.last()
    }
}

/// Joins a character class, a closing parenthesis or a word to the component on the
/// next line.
pub open spec fn first_pattern() -> Seq<char> {
    "(?P<component1>"@ + alternatives(
        seq![
            digit(),
            non_digit(),
            non_space(),
            non_word(),
            right_parenthesis(),
            space(),
            word(),
            "[^\u{1b}\\[0m]+"@,
        ],
    ) + ")\n\\s+(?P<component2>"@ + alternatives(
        seq![
            asterisk(),
            digit(),
            hyphen(),
            left_bracket(),
            non_digit(),
            non_space(),
            non_word(),
            question_mark(),
            repetition(),
            repetition_range(),
            right_bracket(),
            space(),
            word(),
        ],
    ) + ")"@
}

/// Joins the line after a hyphen or a left bracket to it.
pub open spec fn second_pattern() -> Seq<char> {
    "(?P<component>"@ + alternatives(seq![hyphen(), left_bracket()]) + ")\n\\s+"@
}

/// Joins a word to a repetition or a right bracket before it.
pub open spec fn third_pattern() -> Seq<char> {
    "(?P<component1>[^\u{1b}\\[0m]+(?:"@ + alternatives(
        seq![repetition(), repetition_range(), right_bracket()],
    ) + "))\n\\s+(?P<component2>[^\u{1b}\\s]+)"@
}

/// Joins a word, a character class or a repetition to a character class before it.
pub open spec fn fourth_pattern() -> Seq<char> {
    "(?P<component1>(?:"@ + alternatives(
        seq![digit(), non_digit(), non_space(), non_word(), space(), word()],
    ) + "))\n\\s+(?P<component2>[^\u{1b}\\s]+|"@ + alternatives(
        seq![
            digit(),
            non_digit(),
            non_space(),
            non_word(),
            repetition(),
            repetition_range(),
            space(),
            word(),
        ],
    ) + ")"@
}

/// Joins what follows a character class in brackets to it.
pub open spec fn fifth_pattern() -> Seq<char> {
    "(?P<component1>\\[[^\\]]+\\])\\n\\s+(?P<component2>[^\\)\\s]+)"@
}

/// Finds the highlighted components and the text between them.
pub open spec fn color_mode_pattern() -> Seq<char> {
    "\\u{1b}\\[\\d+;\\d+m[^\\u{1b}]+\\u{1b}\\[0m|[^\\u{1b}]+"@
}

/// Finds the components of a regular expression without highlighting.
pub open spec fn verbose_mode_pattern() -> Seq<char> {
    "(?x)\n            \\(\\?i\\)\n            |\n            \\[[^\\]]+\\]\n            |\n            \\( (?: \\?: )?\n            |\n            \\) (?: \\? | \\{ \\d+ (?: ,\\d+ )? \\} )?   \n            |   \n            [\\^|$]\n            |\n            (?:\n                (?: \\\\[\\^$()|DdSsWw\\\\\\ ] )+\n                (?: \\\\* [^\\^$|()\\\\] )*\n            )+\n            |\n            (?:\n                (?: \\\\* [^\\^$()|\\\\] )+\n                (?: \\\\[\\^$()|DdSsWw\\\\\\ ] )*\n            )+\n            "@
}

/// The verbose layout of a regular expression: the verbose flag, then each
/// component on a line of its own indented by its nesting, some lines joined again;
/// `None` where a pattern is refused or more groups close than are open.
pub open spec fn verbose_layout(regexp: Seq<char>, config: RegExpConfig) -> Option<Seq<char>> {
    let col = config.is_output_colorized;
    let flag = if config.is_case_insensitive_matching {
        Component::IgnoreCaseAndVerboseModeFlag.repr(col)
    } else {
        Component::VerboseModeFlag.repr(col)
    };
    let start: nat = if config.is_start_anchor_disabled {
        1
    } else {
        0
    };
    let text = layout_escaped(replace_str(regexp, Component::IgnoreCaseFlag.repr(col), Seq::empty()));
    let pattern = if col {
        color_mode_pattern()
    } else {
        verbose_mode_pattern()
    };
    let both = "$component1$component2"@;
    match regex_find_all(pattern, text) {
        None => None,
        Some(els) => match layout_state(els, els.len() as int, start, col) {
            None => None,
            Some(st) => {
                let joined = join_lines(seq![flag] + st.1);
                if col {
                    match regex_replace_all(first_pattern(), joined, both) {
                        None => None,
                        Some(j1) => match regex_replace_all(second_pattern(), j1, "$component"@) {
                            None => None,
                            Some(j2) => match regex_replace_all(third_pattern(), j2, both) {
                                None => None,
                                Some(j3) => regex_replace_all(fourth_pattern(), j3, both),
                            },
                        },
                    }
                } else {
                    regex_replace_all(fifth_pattern(), joined, both)
                }
            },
        },
    }
}

/// Replaces each occurrence of `pat` in `t`, from left to right and without
/// overlaps, by `rep`.
fn replace_text(t: &Vec<char>, pat: &Vec<char>, rep: &Vec<char>) -> (r: Vec<char>)
    requires
        pat@.len() > 0,
    ensures
        r@ == replace_str(t@, pat@, rep@),
{
    let mut out: Vec<char> = Vec::new();
    let mut i: usize = 0;
    while i < t.len()
        invariant
            i <= t@.len(),
            pat@.len() > 0,
            out@ + replace_str(t@.skip(i as int), pat@, rep@) == replace_str(t@, pat@, rep@),
        decreases t.len() - i,
    {
        let ghost rest = t@.skip(i as int);
        let tn = t.len();
        let mut matched = pat.len() <= tn - i;
        let mut k: usize = 0;
        while matched && k < pat.len()
            invariant
                tn == t@.len(),
                i + pat@.len() <= t@.len() || !matched,
                k <= pat@.len(),
                matched ==> forall|j: int| 0 <= j < k ==> t@[i + j] == pat@[j],
                !matched ==> !(pat@.len() <= rest.len() && rest.subrange(0, pat@.len() as int) == pat@),
                rest == t@.skip(i as int),
                i < t@.len(),
            decreases pat.len() - k, if matched { 1int } else { 0int },
        {
            if t[i + k] != pat[k] {
                matched = false;
                proof {
                    assert(rest.subrange(0, pat@.len() as int)[k as int] != pat@[k as int]);
                }
            } else {
                k = k + 1;
            }
        }
        if matched {
            proof {
                assert(rest.subrange(0, pat@.len() as int) =~= pat@);
                assert(rest.subrange(pat@.len() as int, rest.len() as int) =~= t@.skip(i + pat@.len()));
            }
            let mut j: usize = 0;
            let ghost base = out@;
            while j < rep.len()
                invariant
                    j <= rep@.len(),
                    out@ == base + rep@.take(j as int),
                decreases rep.len() - j,
            {
                out.push(rep[j]);
                j = j + 1;
                assert(out@ =~= base + rep@.take(j as int));
            }
            proof {
                assert(rep@.take(j as int) =~= rep@);
                assert(out@ + replace_str(t@.skip(i + pat@.len()), pat@, rep@) =~= base + replace_str(rest, pat@, rep@));
            }
            i = i + pat.len();
        } else {
            let ghost base = out@;
            out.push(t[i]);
            proof {
                assert(rest.drop_first() =~= t@.skip(i + 1));
                assert(out@ + replace_str(t@.skip(i + 1), pat@, rep@) =~= base + replace_str(rest, pat@, rep@));
            }
            i = i + 1;
        }
    }
    proof {
        assert(out@ + replace_str(t@.skip(i as int), pat@, rep@) =~= out@);
    }
    out
}

/// Escapes the number sign, whitespace and the space for the verbose layout.
fn escape_layout(s: &Vec<char>) -> (r: Vec<char>)
    ensures
        r@ == layout_escaped(s@),
{
    let mut r: Vec<char> = Vec::new();
    let mut i: usize = 0;
    while i < s.len()
        invariant
            i <= s@.len(),
            r@ == layout_escaped(s@.take(i as int)),
        decreases s.len() - i,
    {
        proof {
            assert(s@.take(i + 1).drop_last() =~= s@.take(i as int));
        }
        let c = s[i];
        if c == '#' {
            r.push('\\');
            r.push('#');
        } else if c == '\u{85}' || c == '\u{a0}' || c == '\u{1680}' || ('\u{2000}' <= c && c
            <= '\u{200b}') || c == '\u{2028}' || c == '\u{2029}' || c == '\u{202f}' || c
            == '\u{205f}' || c == '\u{3000}' {
            r.push('\\');
            r.push('s');
        } else if c == ' ' {
            r.push('\\');
            r.push(' ');
        } else {
            r.push(c);
        }
        i = i + 1;
        assert(r@ =~= layout_escaped(s@.take(i as int)));
    }
    assert(s@.take(i as int) =~= s@);
    r
}

/// Appends texts separated by `|`.
fn push_alternatives(out: &mut Vec<char>, parts: &Vec<String>)
    ensures
        final(out)@ == old(out)@ + alternatives(strings_view(parts@)),
{
    let ghost ps = strings_view(parts@);
    let mut i: usize = 0;
    while i < parts.len()
        invariant
            i <= parts@.len(),
            ps == strings_view(parts@),
            out@ == old(out)@ + alternatives(ps.take(i as int)),
        decreases parts.len() - i,
    {
        proof {
            assert(ps.take(i + 1).drop_last() =~= ps.take(i as int));
            assert(ps.take(i + 1).last() == parts@[i as int]@);
        }
        if i > 0 {
            out.push('|');
        }
        push_str(out, parts[i].as_str());
        i = i + 1;
        proof {
            if i == 1 {
                assert(ps.take(1) =~= seq![parts@[0]@]);
            }
            assert(out@ =~= old(out)@ + alternatives(ps.take(i as int)));
        }
    }
    proof {
        assert(ps.take(i as int) =~= ps);
    }
}

/// A component highlighted and escaped for use inside a pattern.
fn colored(c: Component) -> (s: String)
    ensures
        s@ == c.colored_text(true),
{
    c.to_colored_string(true)
}

/// The highlighted character class of the given letter.
fn colored_class(class: &str) -> (s: String)
    ensures
        s@ == escaped_color("103;30"@, class@),
{
    colored(Component::CharClass(class.to_owned()))
}

fn first_pattern_string() -> (s: String)
    ensures
        s@ == first_pattern(),
{
    let left: Vec<String> = vec![
        colored_class("\\d"),
        colored_class("\\D"),
        colored_class("\\S"),
        colored_class("\\W"),
        colored(Component::RightParenthesis),
        colored_class("\\s"),
        colored_class("\\w"),
        "[^\u{1b}\\[0m]+".to_owned(),
    ];
    let right: Vec<String> = vec![
        colored(Component::Asterisk),
        colored_class("\\d"),
        colored(Component::Hyphen),
        colored(Component::LeftBracket),
        colored_class("\\D"),
        colored_class("\\S"),
        colored_class("\\W"),
        colored(Component::QuestionMark),
        colored(Component::Repetition(0)),
        colored(Component::RepetitionRange(0, 0)),
        colored(Component::RightBracket),
        colored_class("\\s"),
        colored_class("\\w"),
    ];
    proof {
        assert(strings_view(left@) =~= seq![
            digit(),
            non_digit(),
            non_space(),
            non_word(),
            right_parenthesis(),
            space(),
            word(),
            "[^\u{1b}\\[0m]+"@,
        ]);
        assert(strings_view(right@) =~= seq![
            asterisk(),
            digit(),
            hyphen(),
            left_bracket(),
            non_digit(),
            non_space(),
            non_word(),
            question_mark(),
            repetition(),
            repetition_range(),
            right_bracket(),
            space(),
            word(),
        ]);
    }
    let mut out: Vec<char> = Vec::new();
    push_str(&mut out, "(?P<component1>");
    push_alternatives(&mut out, &left);
    push_str(&mut out, ")\n\\s+(?P<component2>");
    push_alternatives(&mut out, &right);
    push_str(&mut out, ")");
    assert(out@ =~= first_pattern());
    from_chars(out.as_slice())
}

fn second_pattern_string() -> (s: String)
    ensures
        s@ == second_pattern(),
{
    let parts: Vec<String> = vec![colored(Component::Hyphen), colored(Component::LeftBracket)];
    proof {
        assert(strings_view(parts@) =~= seq![hyphen(), left_bracket()]);
    }
    let mut out: Vec<char> = Vec::new();
    push_str(&mut out, "(?P<component>");
    push_alternatives(&mut out, &parts);
    push_str(&mut out, ")\n\\s+");
    assert(out@ =~= second_pattern());
    from_chars(out.as_slice())
}

fn third_pattern_string() -> (s: String)
    ensures
        s@ == third_pattern(),
{
    let parts: Vec<String> = vec![
        colored(Component::Repetition(0)),
        colored(Component::RepetitionRange(0, 0)),
        colored(Component::RightBracket),
    ];
    proof {
        assert(strings_view(parts@) =~= seq![repetition(), repetition_range(), right_bracket()]);
    }
    let mut out: Vec<char> = Vec::new();
    push_str(&mut out, "(?P<component1>[^\u{1b}\\[0m]+(?:");
    push_alternatives(&mut out, &parts);
    push_str(&mut out, "))\n\\s+(?P<component2>[^\u{1b}\\s]+)");
    assert(out@ =~= third_pattern());
    from_chars(out.as_slice())
}

fn fourth_pattern_string() -> (s: String)
    ensures
        s@ == fourth_pattern(),
{
    let left: Vec<String> = vec![
        colored_class("\\d"),
        colored_class("\\D"),
        colored_class("\\S"),
        colored_class("\\W"),
        colored_class("\\s"),
        colored_class("\\w"),
    ];
    let right: Vec<String> = vec![
        colored_class("\\d"),
        colored_class("\\D"),
        colored_class("\\S"),
        colored_class("\\W"),
        colored(Component::Repetition(0)),
        colored(Component::RepetitionRange(0, 0)),
        colored_class("\\s"),
        colored_class("\\w"),
    ];
    proof {
        assert(strings_view(left@) =~= seq![
            digit(),
            non_digit(),
            non_space(),
            non_word(),
            space(),
            word(),
        ]);
        assert(strings_view(right@) =~= seq![
            digit(),
            non_digit(),
            non_space(),
            non_word(),
            repetition(),
            repetition_range(),
            space(),
            word(),
        ]);
    }
    let mut out: Vec<char> = Vec::new();
    push_str(&mut out, "(?P<component1>(?:");
    push_alternatives(&mut out, &left);
    push_str(&mut out, "))\n\\s+(?P<component2>[^\u{1b}\\s]+|");
    push_alternatives(&mut out, &right);
    push_str(&mut out, ")");
    assert(out@ =~= fourth_pattern());
    from_chars(out.as_slice())
}

/// Once a component closes more groups than are open, the layout stays refused.
proof fn lemma_layout_refused(els: Seq<Seq<char>>, k: int, m: int, start: nat, colored: bool)
    requires
        0 <= k <= m,
        layout_state(els, k, start, colored) is None,
    ensures
        layout_state(els, m, start, colored) is None,
    decreases m - k,
{
    if k < m {
        lemma_layout_refused(els, k, m - 1, start, colored);
    }
}

/// Lays the components out one per line, indented by two spaces per open group;
/// `None` where a component closes more groups than are open.
pub fn layout_elements(
    elements: &Vec<String>,
    start: u128,
    colored: bool,
    lines: &mut Vec<Vec<char>>,
) -> (ok: bool)
    requires
        start <= 1,
    ensures
        match layout_state(strings_view(elements@), elements@.len() as int, start as nat, colored) {
            Some(st) => ok && final(lines)@.map_values(|l: Vec<char>| l@) == old(lines)@.map_values(
                |l: Vec<char>| l@,
            ) + st.1,
            None => !ok,
        },
{
    let ghost els = strings_view(elements@);
    let ghost base = lines@.map_values(|l: Vec<char>| l@);
    let mut nesting: u128 = start;
    let mut i: usize = 0;
    while i < elements.len()
        invariant
            i <= elements@.len(),
            els == strings_view(elements@),
            nesting <= i + 1,
            layout_state(els, i as int, start as nat, colored) matches Some(st) && st.0
                == nesting as nat && lines@.map_values(|l: Vec<char>| l@) == base + st.1,
        decreases elements.len() - i,
    {
        let e = to_chars(elements[i].as_str());
        let ghost prev = lines@;
        proof {
            assert(els[i as int] == e@);
        }
        if e.len() != 0 {
            let is_colored = e.len() >= 2 && e[0] == '\u{1b}' && e[1] == '[';
            proof {
                if e@.len() >= 2 {
                    assert(e@.subrange(0, 2) =~= seq![e@[0], e@[1]]);
                }
                assert(is_colored == begins_with(e@, seq!['\u{1b}', '[']));
                assert(e@.subrange(0, 1) =~= seq![e@[0]]);
                if e@.len() == 1 {
                    assert(e@ =~= seq![e@[0]]);
                }
            }
            let closes = if colored {
                is_colored && (contains(&e, '$') || contains(&e, ')'))
            } else {
                (e.len() == 1 && e[0] == '$') || e[0] == ')'
            };
            if closes && nesting == 0 {
                proof {
                    assert(layout_state(els, i + 1, start as nat, colored) is None);
                    lemma_layout_refused(els, i + 1, els.len() as int, start as nat, colored);
                }
                return false;
            }
            if closes {
                nesting = nesting - 1;
            }
            let mut text: Vec<char> = Vec::new();
            let mut k: u128 = 0;
            while k < nesting
                invariant
                    k <= nesting,
                    text@ == spaces(2 * k as nat),
                decreases nesting - k,
            {
                text.push(' ');
                text.push(' ');
                k = k + 1;
                assert(text@ =~= spaces(2 * k as nat));
            }
            let mut j: usize = 0;
            while j < e.len()
                invariant
                    j <= e@.len(),
                    text@ == spaces(2 * nesting as nat) + e@.take(j as int),
                decreases e.len() - j,
            {
                text.push(e[j]);
                j = j + 1;
                assert(text@ =~= spaces(2 * nesting as nat) + e@.take(j as int));
            }
            proof {
                assert(e@.take(j as int) =~= e@);
            }
            lines.push(text);
            proof {
                assert(lines@.map_values(|l: Vec<char>| l@) =~= prev.map_values(|l: Vec<char>| l@).push(
                    spaces(2 * nesting as nat) + e@,
                ));
            }
            let opens = if colored {
                is_colored && (contains(&e, '^') || contains(&e, '('))
            } else {
                (e.len() == 1 && e[0] == '^') || e[0] == '('
            };
            if opens {
                nesting = nesting + 1;
            }
        }
        i = i + 1;
    }
    true
}

/// Whether `c` occurs in `s`.
fn contains(s: &Vec<char>, c: char) -> (b: bool)
    ensures
        b == has_char(s@, c),
{
    let mut i: usize = 0;
    while i < s.len()
        invariant
            i <= s@.len(),
            forall|j: int| 0 <= j < i ==> s@[j] != c,
        decreases s.len() - i,
    {
        if s[i] == c {
            return true;
        }
        i = i + 1;
    }
    false
}

/// Lines joined with line feeds.
fn join_with_line_feeds(ls: &Vec<Vec<char>>) -> (r: Vec<char>)
    ensures
        r@ == join_lines(ls@.map_values(|l: Vec<char>| l@)),
{
    let ghost outs = ls@.map_values(|l: Vec<char>| l@);
    let mut joined: Vec<char> = Vec::new();
    let mut q: usize = 0;
    while q < ls.len()
        invariant
            q <= ls@.len(),
            outs == ls@.map_values(|l: Vec<char>| l@),
            joined@ == join_lines(outs.take(q as int)),
        decreases ls.len() - q,
    {
        proof {
            assert(outs.take(q + 1).drop_last() =~= outs.take(q as int));
            assert(outs.take(q + 1).last() == ls@[q as int]@);
        }
        if q > 0 {
            joined.push('\n');
        }
        let l = &ls[q];
        let mut j: usize = 0;
        let ghost base = joined@;
        while j < l.len()
            invariant
                j <= l@.len(),
                joined@ == base + l@.take(j as int),
            decreases l.len() - j,
        {
            joined.push(l[j]);
            j = j + 1;
            assert(joined@ =~= base + l@.take(j as int));
        }
        q = q + 1;
        proof {
            assert(l@.take(j as int) =~= l@);
            assert(joined@ =~= join_lines(outs.take(q as int)));
        }
    }
    proof {
        assert(outs.take(q as int) =~= outs);
    }
    joined
}

/// Lays a regular expression out in the verbose layout: the verbose flag, then each
/// component on a line of its own, indented by its nesting, some lines joined
/// again; `None` where a pattern is refused or a component closes more groups than
/// are open.
pub fn try_apply_verbose_mode(regexp: &str, config: &RegExpConfig) -> (r: Option<String>)
    ensures
        match r {
            Some(s) => verbose_layout(regexp@, *config) == Some(s@),
            None => verbose_layout(regexp@, *config) is None,
        },
{
    let col = config.is_output_colorized;
    let verbose_mode_flag = if config.is_case_insensitive_matching {
        Component::IgnoreCaseAndVerboseModeFlag.to_repr(col)
    } else {
        Component::VerboseModeFlag.to_repr(col)
    };
    let start: u128 = if config.is_start_anchor_disabled {
        1
    } else {
        0
    };
    let flag = Component::IgnoreCaseFlag.to_repr(col);
    let flag_chars = to_chars(flag.as_str());
    proof {
        reveal_strlit("(?i)");
        assert(flag_chars@.len() > 0);
    }
    let chars = to_chars(regexp);
    let without_flag = replace_text(&chars, &flag_chars, &Vec::new());
    let escaped = escape_layout(&without_flag);
    let text = from_chars(escaped.as_slice());
    let pattern = if col {
        "\\u{1b}\\[\\d+;\\d+m[^\\u{1b}]+\\u{1b}\\[0m|[^\\u{1b}]+".to_owned()
    } else {
        "(?x)\n            \\(\\?i\\)\n            |\n            \\[[^\\]]+\\]\n            |\n            \\( (?: \\?: )?\n            |\n            \\) (?: \\? | \\{ \\d+ (?: ,\\d+ )? \\} )?   \n            |   \n            [\\^|$]\n            |\n            (?:\n                (?: \\\\[\\^$()|DdSsWw\\\\\\ ] )+\n                (?: \\\\* [^\\^$|()\\\\] )*\n            )+\n            |\n            (?:\n                (?: \\\\* [^\\^$()|\\\\] )+\n                (?: \\\\[\\^$()|DdSsWw\\\\\\ ] )*\n            )+\n            ".to_owned()
    };
    let elements = match find_all(pattern.as_str(), text.as_str()) {
        Some(v) => v,
        None => {
            return None;
        },
    };
    let mut lines: Vec<Vec<char>> = Vec::new();
    lines.push(to_chars(verbose_mode_flag.as_str()));
    proof {
        assert(lines@.map_values(|l: Vec<char>| l@) =~= seq![verbose_mode_flag@]);
    }
    if !layout_elements(&elements, start, col, &mut lines) {
        return None;
    }
    let joined = from_chars(join_with_line_feeds(&lines).as_slice());
    if col {
        let p1 = first_pattern_string();
        let j1 = match replace_all(p1.as_str(), joined.as_str(), "$component1$component2") {
            Some(s) => s,
            None => {
                return None;
            },
        };
        let p2 = second_pattern_string();
        let j2 = match replace_all(p2.as_str(), j1.as_str(), "$component") {
            Some(s) => s,
            None => {
                return None;
            },
        };
        let p3 = third_pattern_string();
        let j3 = match replace_all(p3.as_str(), j2.as_str(), "$component1$component2") {
            Some(s) => s,
            None => {
                return None;
            },
        };
        let p4 = fourth_pattern_string();
        replace_all(p4.as_str(), j3.as_str(), "$component1$component2")
    } else {
        replace_all(
            "(?P<component1>\\[[^\\]]+\\])\\n\\s+(?P<component2>[^\\)\\s]+)",
            joined.as_str(),
            "$component1$component2",
        )
    }
}

/// The line tabulation written `\v`.
pub open spec fn tabulation_escaped(s: Seq<char>) -> Seq<char>
    decreases s.len(),
{
    if s.len() == 0 {
        Seq::empty()
    } else {
        tabulation_escaped(s.drop_last()) + if s.last() == '\u{b}' {
            seq!['\\', 'v']
        } else {
            seq![s.last()]
        }
    }
}

/// The text of a regular expression: the flag, the anchors and the expression, an
/// alternation in a group, laid out verbosely where the settings ask for it;
/// `None` where the verbose layout is refused.
pub open spec fn layout_regexp_text(ast: ExprModel, config: RegExpConfig) -> Option<Seq<char>> {
    let col = config.is_output_colorized;
    let flag = if config.is_case_insensitive_matching {
        Component::IgnoreCaseFlag.repr(col)
    } else {
        Seq::empty()
    };
    let caret = if config.is_start_anchor_disabled {
        Seq::empty()
    } else {
        Component::Caret.repr(col)
    };
    let dollar_sign = if config.is_end_anchor_disabled {
        Seq::empty()
    } else {
        Component::DollarSign.repr(col)
    };
    let body = if ast is Alt {
        parenthesized_repr(config.is_capturing_group_enabled, render(ast), false, false, col)
    } else {
        render(ast)
    };
    let regexp = tabulation_escaped(flag + caret + body + dollar_sign);
    if config.is_verbose_mode_enabled {
        verbose_layout(regexp, config)
    } else {
        Some(regexp)
    }
}

/// A regular expression whose verbose layout is found with regular expressions.
pub struct RegExp {
    pub ast: Expression,
    pub config: RegExpConfig,
}

/// Writes the line tabulation as `\v`.
fn escape_tabulation(s: &Vec<char>) -> (r: Vec<char>)
    ensures
        r@ == tabulation_escaped(s@),
{
    let mut r: Vec<char> = Vec::new();
    let mut i: usize = 0;
    while i < s.len()
        invariant
            i <= s@.len(),
            r@ == tabulation_escaped(s@.take(i as int)),
        decreases s.len() - i,
    {
        proof {
            assert(s@.take(i + 1).drop_last() =~= s@.take(i as int));
        }
        if s[i] == '\u{b}' {
            r.push('\\');
            r.push('v');
        } else {
            r.push(s[i]);
        }
        i = i + 1;
        assert(r@ =~= tabulation_escaped(s@.take(i as int)));
    }
    assert(s@.take(i as int) =~= s@);
    r
}

impl RegExp {
    /// A regular expression of an expression tree and the settings to write it with.
    pub fn new(ast: Expression, config: &RegExpConfig) -> (r: Self)
        ensures
            r.ast@ == ast@,
            r.config == *config,
    {
        RegExp { ast, config: *config }
    }

    /// The text of the regular expression; `None` where the verbose layout is refused.
    pub fn try_to_string(&self) -> (r: Option<String>)
        ensures
            match r {
                Some(s) => layout_regexp_text(self.ast@, self.config) == Some(s@),
                None => layout_regexp_text(self.ast@, self.config) is None,
            },
    {
        let col = self.config.is_output_colorized;
        let ignore_case_flag = if self.config.is_case_insensitive_matching {
            Component::IgnoreCaseFlag.to_repr(col)
        } else {
            String::new()
        };
        let caret = if self.config.is_start_anchor_disabled {
            String::new()
        } else {
            Component::Caret.to_repr(col)
        };
        let dollar_sign = if self.config.is_end_anchor_disabled {
            String::new()
        } else {
            Component::DollarSign.to_repr(col)
        };
        let body = match &self.ast {
            Expression::Alternation(_) => {
                if self.config.is_capturing_group_enabled {
                    Component::CapturedParenthesizedExpression(self.ast.to_string()).to_repr(col)
                } else {
                    Component::UncapturedParenthesizedExpression(self.ast.to_string()).to_repr(col)
                }
            },
            _ => self.ast.to_string(),
        };
        proof {
            crate::ast::lemma_model_form(self.ast);
        }
        let mut text: Vec<char> = Vec::new();
        push_str(&mut text, ignore_case_flag.as_str());
        push_str(&mut text, caret.as_str());
        push_str(&mut text, body.as_str());
        push_str(&mut text, dollar_sign.as_str());
        let regexp = from_chars(escape_tabulation(&text).as_slice());
        if self.config.is_verbose_mode_enabled {
            try_apply_verbose_mode(regexp.as_str(), &self.config)
        } else {
            Some(regexp)
        }
    }

    /// The text of the regular expression.
    pub fn to_string(&self) -> (s: String)
        requires
            layout_regexp_text(self.ast@, self.config) is Some,
        ensures
            layout_regexp_text(self.ast@, self.config) == Some(s@),
    {
        match self.try_to_string() {
            Some(s) => s,
            None => String::new(),
        }
    }
}

/// Lays a regular expression out in the verbose layout.
pub fn apply_verbose_mode(regexp: String, config: &RegExpConfig) -> (s: String)
    requires
        verbose_layout(regexp@, *config) is Some,
    ensures
        verbose_layout(regexp@, *config) == Some(s@),
{
    match try_apply_verbose_mode(regexp.as_str(), config) {
        Some(s) => s,
        None => regexp,
    }
}

proof fn lemma_tabulation_escaped_concat(a: Seq<char>, b: Seq<char>)
    ensures
        tabulation_escaped(a + b) == tabulation_escaped(a) + tabulation_escaped(b),
    decreases b.len(),
{
    if b.len() == 0 {
        assert(a + b =~= a);
        assert(tabulation_escaped(a) + tabulation_escaped(b) =~= tabulation_escaped(a));
    } else {
        assert((a + b).drop_last() =~= a + b.drop_last());
        assert((a + b).last() == b.last());
        lemma_tabulation_escaped_concat(a, b.drop_last());
        let t = if b.last() == '\u{b}' {
            seq!['\\', 'v']
        } else {
            seq![b.last()]
        };
        assert(tabulation_escaped(a + b) == tabulation_escaped(a + b.drop_last()) + t);
        assert(tabulation_escaped(b) == tabulation_escaped(b.drop_last()) + t);
        assert(tabulation_escaped(a) + tabulation_escaped(b.drop_last()) + t =~= tabulation_escaped(a)
            + (tabulation_escaped(b.drop_last()) + t));
    }
}

proof fn lemma_tabulation_escaped_plain(a: Seq<char>)
    requires
        forall|i: int| 0 <= i < a.len() ==> #[trigger] a[i] != '\u{b}',
    ensures
        tabulation_escaped(a) == a,
    decreases a.len(),
{
    if a.len() > 0 {
        assert(a[a.len() - 1] != '\u{b}');
        lemma_tabulation_escaped_plain(a.drop_last());
        assert(a.drop_last() + seq![a.last()] =~= a);
    }
}

/// With case-insensitive matching and without the verbose layout, the text of a
/// regular expression is given and starts with the flag group `(?i)`, highlighted
/// where the output is colored.
pub proof fn lemma_layout_case_insensitive_flag(ast: ExprModel, config: RegExpConfig)
    requires
        config.is_case_insensitive_matching,
        !config.is_verbose_mode_enabled,
    ensures
        layout_regexp_text(ast, config) is Some,
        begins_with(
            layout_regexp_text(ast, config)->0,
            shown_flag(seq!['(', '?', 'i', ')'], config.is_output_colorized),
        ),
{
    reveal_strlit("(?i)");
    reveal_strlit("40;93");
    let col = config.is_output_colorized;
    let flag = Component::IgnoreCaseFlag.repr(col);
    let line = shown_flag(seq!['(', '?', 'i', ')'], col);
    assert(flag =~= line);
    let caret = if config.is_start_anchor_disabled {
        Seq::empty()
    } else {
        Component::Caret.repr(col)
    };
    let dollar_sign = if config.is_end_anchor_disabled {
        Seq::empty()
    } else {
        Component::DollarSign.repr(col)
    };
    let body = if ast is Alt {
        parenthesized_repr(config.is_capturing_group_enabled, render(ast), false, false, col)
    } else {
        render(ast)
    };
    let rest = caret + body + dollar_sign;
    assert(flag + caret + body + dollar_sign =~= flag + rest);
    lemma_tabulation_escaped_concat(flag, rest);
    if col {
        let a = seq!['\u{1b}', '[', '4', '0', ';', '9', '3', 'm'];
        let g = seq!['(', '?', 'i', ')'];
        let b = seq!['\u{1b}', '[', '0', 'm'];
        assert(line == a + g + b);
        assert forall|i: int| 0 <= i < line.len() implies #[trigger] line[i] != '\u{b}' by {
            if i < a.len() {
                assert(line[i] == a[i]);
            } else if i < a.len() + g.len() {
                assert(line[i] == g[i - a.len()]);
            } else {
                assert(line[i] == b[i - a.len() - g.len()]);
            }
        }
    }
    lemma_tabulation_escaped_plain(flag);
    let t = flag + tabulation_escaped(rest);
    assert(t.subrange(0, line.len() as int) =~= line);
}

} // verus!
