//! The finished regular expression: its components, its configuration and its text.
pub mod component;
pub mod config;
pub mod feature;
pub mod verbose;

use crate::ast::{strings_view, ExprModel, Expression};
use crate::cluster::{
    cluster_strings, grapheme_with_classes, singles, ClusterModel, GraphemeCluster,
};
use crate::component::{parenthesized_repr, Component};
use crate::display::render;
use crate::regexp::config::RegExpConfig;
use crate::substrings::repetitions_of;
use crate::text::{from_chars, push_str, to_chars};
use vstd::prelude::*;

verus! {

broadcast use vstd::seq::group_seq_axioms, vstd::seq_lib::group_seq_properties;

/// A line without the carriage return that ends it, if any.
pub open spec fn strip_cr(l: Seq<char>) -> Seq<char> {
    if l.len() > 0 && l.last() == '\r' {
        l.drop_last()
    } else {
        l
    }
}

/// The lines finished so far and the line being read, after reading `s`.
pub open spec fn split_state(s: Seq<char>) -> (Seq<Seq<char>>, Seq<char>)
    decreases s.len(),
{
    if s.len() == 0 {
        (Seq::empty(), Seq::empty())
    } else {
        let prev = split_state(s.drop_last());
        if s.last() == '\n' {
            (prev.0.push(strip_cr(prev.1)), Seq::empty())
        } else {
            (prev.0, prev.1.push(s.last()))
        }
    }
}

/// The lines of a text as `str::lines` gives them: split at each line feed, a
/// carriage return before it dropped, a final line feed ending the last line.
pub open spec fn lines_of(s: Seq<char>) -> Seq<Seq<char>> {
    let st = split_state(s);
    if st.1.len() > 0 {
        st.0.push(st.1)
    } else {
        st.0
    }
}

/// Lines joined with line feeds.
pub open spec fn join_lines(ls: Seq<Seq<char>>) -> Seq<char>
    decreases ls.len(),
{
    if ls.len() == 0 {
        Seq::empty()
    } else if ls.len() == 1 {
        ls[0]
    } else {
        join_lines(ls.drop_last()) + seq!['\n'] + ls.last()
    }
}

/// `c` occurs in `s`.
pub open spec fn has_char(s: Seq<char>, c: char) -> bool {
    exists|i: int| 0 <= i < s.len() && s[i] == c
}

/// `s` starts with `p`.
pub open spec fn begins_with(s: Seq<char>, p: Seq<char>) -> bool {
    p.len() <= s.len() && s.subrange(0, p.len() as int) == p
}

/// `n` spaces.
pub open spec fn spaces(n: nat) -> Seq<char> {
    Seq::new(n, |i: int| ' ')
}

/// The nesting level and the indented lines after the first `k` lines.
pub open spec fn indent_state(ls: Seq<Seq<char>>, k: int, start_disabled: bool) -> (nat, Seq<
    Seq<char>,
>)
    decreases k,
{
    if k <= 0 {
        (0, Seq::empty())
    } else {
        let prev = indent_state(ls, k - 1, start_disabled);
        let i = k - 1;
        let line = ls[i];
        let n1 = if i == 1 && start_disabled {
            prev.0 + 1
        } else {
            prev.0
        };
        if line.len() == 0 {
            (n1, prev.1)
        } else {
            let colored = begins_with(line, seq!['\u{1b}', '[']);
            let n2: nat = if n1 > 0 && ((colored && (has_char(line, '$') || has_char(line, ')'))) || (
            line == seq!['$'] || begins_with(line, seq![')']))) {
                (n1 - 1) as nat
            } else {
                n1
            };
            let out = prev.1.push(spaces(2 * n2) + line);
            let opens = (colored && (has_char(line, '^') || (i > 0 && has_char(line, '(')))) || (
            line == seq!['^'] || (i > 0 && begins_with(line, seq!['('])));
            (
                if opens {
                    n2 + 1
                } else {
                    n2
                },
                out,
            )
        }
    }
}

/// A regular expression in the verbose layout with each line indented by its
/// nesting in groups and anchors.
pub open spec fn indented(s: Seq<char>, start_disabled: bool) -> Seq<char> {
    join_lines(indent_state(lines_of(s), lines_of(s).len() as int, start_disabled).1)
}

/// The line tabulation and the form feed written `\v` and `\f`.
pub open spec fn control_escaped(s: Seq<char>) -> Seq<char>
    decreases s.len(),
{
    if s.len() == 0 {
        Seq::empty()
    } else {
        control_escaped(s.drop_last()) + if s.last() == '\u{b}' {
            seq!['\\', 'v']
        } else if s.last() == '\u{c}' {
            seq!['\\', 'f']
        } else {
            seq![s.last()]
        }
    }
}

/// A whitespace character that the verbose layout writes `\s`.
pub open spec fn is_verbose_space(c: char) -> bool {
    c == '\u{85}' || c == '\u{a0}' || c == '\u{1680}' || ('\u{2000}' <= c && c <= '\u{200a}') || c
        == '\u{2028}' || c == '\u{2029}' || c == '\u{202f}' || c == '\u{205f}' || c == '\u{3000}'
}

/// The number sign, whitespace and the space escaped for the verbose layout.
pub open spec fn verbose_escaped(s: Seq<char>) -> Seq<char>
    decreases s.len(),
{
    if s.len() == 0 {
        Seq::empty()
    } else {
        verbose_escaped(s.drop_last()) + if s.last() == '#' {
            seq!['\\', '#']
        } else if is_verbose_space(s.last()) {
            seq!['\\', 's']
        } else if s.last() == ' ' {
            seq!['\\', ' ']
        } else {
            seq![s.last()]
        }
    }
}

/// The text of a regular expression of the given expression and settings.
pub open spec fn regexp_text(ast: ExprModel, config: RegExpConfig) -> Seq<char> {
    let col = config.is_output_colorized;
    let vb = config.is_verbose_mode_enabled;
    let flag = if config.is_case_insensitive_matching && vb {
        Component::IgnoreCaseAndVerboseModeFlag.repr(col)
    } else if config.is_case_insensitive_matching {
        Component::IgnoreCaseFlag.repr(col)
    } else if vb {
        Component::VerboseModeFlag.repr(col)
    } else {
        Seq::empty()
    };
    let caret = if config.is_start_anchor_disabled {
        Seq::empty()
    } else {
        Component::Caret(vb).repr(col)
    };
    let dollar_sign = if config.is_end_anchor_disabled {
        Seq::empty()
    } else {
        Component::DollarSign(vb).repr(col)
    };
    let body = if ast is Alt {
        parenthesized_repr(config.is_capturing_group_enabled, render(ast), vb, false, col)
    } else {
        render(ast)
    };
    let plain = control_escaped(flag + caret + body + dollar_sign);
    if vb {
        indented(verbose_escaped(plain), config.is_start_anchor_disabled)
    } else {
        plain
    }
}

/// Unicode's lowercase mapping of a text, as `str::to_lowercase` computes it.
pub uninterp spec fn lowercase(s: Seq<char>) -> Seq<char>;

/// Lowercases a text with `str::to_lowercase`. The contract claims that the result
/// is named by `lowercase`: std maps each character by fixed Unicode tables, and
/// the only context it looks at (a final sigma) lies in the text itself.
#[verifier::external_body]
fn to_lowercase(s: &str) -> (r: String)
    ensures
        r@ == lowercase(s@),
{
    s.to_lowercase()
}

/// A test case lowercased where that keeps its number of characters.
pub open spec fn case_folded(s: Seq<char>) -> Seq<char> {
    if lowercase(s).len() == s.len() {
        lowercase(s)
    } else {
        s
    }
}

/// `a` comes before `b` in lexicographic order of code points.
pub open spec fn lex_less(a: Seq<char>, b: Seq<char>) -> bool
    decreases a.len(),
{
    if a.len() == 0 {
        b.len() > 0
    } else if b.len() == 0 {
        false
    } else if a[0] != b[0] {
        (a[0] as u32) < (b[0] as u32)
    } else {
        lex_less(a.drop_first(), b.drop_first())
    }
}

/// `a` comes before `b`: it is shorter in UTF-8, or as long and lexicographically
/// smaller.
pub open spec fn case_before(a: Seq<char>, b: Seq<char>) -> bool {
    crate::ast::byte_len(a) < crate::ast::byte_len(b) || (crate::ast::byte_len(a)
        == crate::ast::byte_len(b) && lex_less(a, b))
}

/// Inserts a test case before the first one it comes before, unless it is there.
pub open spec fn insert_case(s: Seq<Seq<char>>, m: Seq<char>) -> Seq<Seq<char>>
    decreases s.len(),
{
    if s.len() == 0 {
        seq![m]
    } else if s[0] == m {
        s
    } else if case_before(m, s[0]) {
        seq![m] + s
    } else {
        seq![s[0]] + insert_case(s.drop_first(), m)
    }
}

/// The distinct test cases sorted by UTF-8 length and then lexicographically.
pub open spec fn sorted_cases(s: Seq<Seq<char>>) -> Seq<Seq<char>>
    decreases s.len(),
{
    if s.len() == 0 {
        Seq::empty()
    } else {
        insert_case(sorted_cases(s.drop_last()), s.last())
    }
}

/// Inserting where the case belongs.
proof fn lemma_insert_case(s: Seq<Seq<char>>, m: Seq<char>, p: int)
    requires
        0 <= p <= s.len(),
        forall|j: int| 0 <= j < p ==> #[trigger] s[j] != m && !case_before(m, s[j]),
        p < s.len() ==> (s[p] == m || case_before(m, s[p])),
    ensures
        insert_case(s, m) == if p < s.len() && s[p] == m {
            s
        } else {
            s.insert(p, m)
        },
    decreases s.len(),
{
    if s.len() == 0 {
        assert(s.insert(p, m) =~= seq![m]);
    } else if p == 0 {
        if s[0] != m {
            assert(s.insert(p, m) =~= seq![m] + s);
        }
    } else {
        lemma_insert_case(s.drop_first(), m, p - 1);
        if p < s.len() && s[p] == m {
            assert(seq![s[0]] + s.drop_first() =~= s);
        } else {
            assert(s.insert(p, m) =~= seq![s[0]] + s.drop_first().insert(p - 1, m));
        }
    }
}

/// Whether `a` comes before `b` in lexicographic order of code points.
fn lex_less_exec(a: &Vec<char>, b: &Vec<char>) -> (r: bool)
    ensures
        r == lex_less(a@, b@),
{
    let mut i: usize = 0;
    while i < a.len() && i < b.len() && a[i] == b[i]
        invariant
            i <= a@.len(),
            i <= b@.len(),
            a@.take(i as int) == b@.take(i as int),
            lex_less(a@, b@) == lex_less(a@.skip(i as int), b@.skip(i as int)),
        decreases a.len() - i,
    {
        proof {
            assert(a@.skip(i as int).drop_first() =~= a@.skip(i + 1));
            assert(b@.skip(i as int).drop_first() =~= b@.skip(i + 1));
            assert(a@.take(i + 1) =~= a@.take(i as int).push(a@[i as int]));
            assert(b@.take(i + 1) =~= b@.take(i as int).push(b@[i as int]));
        }
        i = i + 1;
    }
    if i == a.len() {
        i < b.len()
    } else if i == b.len() {
        false
    } else {
        (a[i] as u32) < (b[i] as u32)
    }
}

/// Whether test case `a` comes before test case `b`.
fn case_before_exec(a: &String, b: &String) -> (r: bool)
    ensures
        r == case_before(a@, b@),
{
    let la = a.as_str().len();
    let lb = b.as_str().len();
    if la != lb {
        return la < lb;
    }
    let ca = to_chars(a.as_str());
    let cb = to_chars(b.as_str());
    lex_less_exec(&ca, &cb)
}

/// Removes duplicate test cases and sorts them by UTF-8 length and then
/// lexicographically.
pub fn sort(test_cases: &mut Vec<String>)
    ensures
        strings_view(final(test_cases)@) == sorted_cases(strings_view(old(test_cases)@)),
{
    let ghost orig = strings_view(test_cases@);
    let mut rest: Vec<String> = Vec::new();
    std::mem::swap(&mut rest, test_cases);
    let mut sorted: Vec<String> = Vec::new();
    let mut k: usize = 0;
    while k < rest.len()
        invariant
            k <= rest@.len(),
            orig == strings_view(rest@),
            strings_view(sorted@) == sorted_cases(orig.take(k as int)),
        decreases rest.len() - k,
    {
        let m = &rest[k];
        let mut p: usize = 0;
        let mut stop = false;
        while p < sorted.len() && !stop
            invariant
                p <= sorted@.len(),
                forall|j: int| 0 <= j < p ==> #[trigger] sorted@[j]@ != m@ && !case_before(m@, sorted@[j]@),
                stop ==> p < sorted@.len() && (sorted@[p as int]@ == m@ || case_before(m@, sorted@[p as int]@)),
            decreases sorted.len() - p, if stop { 0int } else { 1int },
        {
            if crate::text::str_eq(sorted[p].as_str(), m.as_str()) || case_before_exec(m, &sorted[p]) {
                stop = true;
            } else {
                p = p + 1;
            }
        }
        proof {
            let s = strings_view(sorted@);
            assert forall|j: int| 0 <= j < p implies #[trigger] s[j] != m@ && !case_before(m@, s[j]) by {
                assert(s[j] == sorted@[j]@);
            }
            lemma_insert_case(s, m@, p as int);
            assert(orig.take(k + 1).drop_last() =~= orig.take(k as int));
            assert(orig.take(k + 1).last() == m@);
        }
        if !(p < sorted.len() && crate::text::str_eq(sorted[p].as_str(), m.as_str())) {
            let ghost before = sorted@;
            sorted.insert(p, m.clone());
            proof {
                assert(strings_view(sorted@) =~= strings_view(before).insert(p as int, m@));
            }
        }
        k = k + 1;
    }
    proof {
        assert(orig.take(k as int) =~= orig);
    }
    *test_cases = sorted;
}

/// Lowercases each test case where that keeps its number of characters, so that
/// a case like "İ", whose lowercase form is longer, still matches.
pub fn convert_for_case_insensitive_matching(test_cases: &mut Vec<String>)
    ensures
        strings_view(final(test_cases)@) == strings_view(old(test_cases)@).map_values(
            |s: Seq<char>| case_folded(s),
        ),
{
    let ghost orig = strings_view(test_cases@);
    let mut out: Vec<String> = Vec::new();
    let mut i: usize = 0;
    while i < test_cases.len()
        invariant
            i <= test_cases@.len(),
            orig == strings_view(test_cases@),
            out@.len() == i,
            forall|j: int| 0 <= j < i ==> (#[trigger] out@[j])@ == case_folded(orig[j]),
        decreases test_cases.len() - i,
    {
        let it = test_cases[i].as_str();
        let lower = to_lowercase(it);
        let lower_count = to_chars(lower.as_str()).len();
        let count = to_chars(it).len();
        if lower_count == count {
            out.push(lower);
        } else {
            out.push(it.to_owned());
        }
        i = i + 1;
    }
    proof {
        assert(strings_view(out@) =~= orig.map_values(|s: Seq<char>| case_folded(s)));
    }
    *test_cases = out;
}

/// Lowercases each test case.
pub fn convert_to_lowercase(test_cases: &mut Vec<String>)
    ensures
        strings_view(final(test_cases)@) == strings_view(old(test_cases)@).map_values(
            |s: Seq<char>| lowercase(s),
        ),
{
    let ghost orig = strings_view(test_cases@);
    let mut out: Vec<String> = Vec::new();
    let mut i: usize = 0;
    while i < test_cases.len()
        invariant
            i <= test_cases@.len(),
            orig == strings_view(test_cases@),
            out@.len() == i,
            forall|j: int| 0 <= j < i ==> (#[trigger] out@[j])@ == lowercase(orig[j]),
        decreases test_cases.len() - i,
    {
        out.push(to_lowercase(test_cases[i].as_str()));
        i = i + 1;
    }
    proof {
        assert(strings_view(out@) =~= orig.map_values(|s: Seq<char>| lowercase(s)));
    }
    *test_cases = out;
}

/// The grapheme cluster of a test case with the conversions that the settings ask
/// for.
pub open spec fn converted_cluster(s: Seq<char>, config: RegExpConfig) -> ClusterModel {
    let gs0 = singles(cluster_strings(crate::ast::graphemes_of(s)), config);
    let gs1 = if config.spec_is_char_class_feature_enabled() {
        gs0.map_values(|g: crate::grapheme::GraphemeModel| grapheme_with_classes(g, config))
    } else {
        gs0
    };
    let gs2 = if config.is_repetition_converted && repetitions_of(gs1, config).len() > 0 {
        repetitions_of(gs1, config)
    } else {
        gs1
    };
    ClusterModel { graphemes: gs2, config }
}

/// The grapheme clusters of the test cases, with their characters converted to
/// character classes and their repetitions converted where the settings ask for it.
pub fn grapheme_clusters(test_cases: &[String], config: &RegExpConfig) -> (r: Vec<GraphemeCluster>)
    ensures
        r@.len() == test_cases@.len(),
        forall|i: int|
            0 <= i < r@.len() ==> (#[trigger] r@[i])@ == converted_cluster(test_cases@[i]@, *config),
{
    let mut clusters: Vec<GraphemeCluster> = Vec::new();
    let mut i: usize = 0;
    while i < test_cases.len()
        invariant
            i <= test_cases@.len(),
            clusters@.len() == i,
            forall|j: int|
                0 <= j < i ==> (#[trigger] clusters@[j])@ == converted_cluster(test_cases@[j]@, *config),
        decreases test_cases.len() - i,
    {
        let mut cluster = GraphemeCluster::from(test_cases[i].as_str(), config);
        if config.is_char_class_feature_enabled() {
            cluster.convert_to_char_classes();
        }
        if config.is_repetition_converted {
            cluster.convert_repetitions();
        }
        clusters.push(cluster);
        i = i + 1;
    }
    clusters
}

/// A regular expression: its expression tree and the settings it is written with.
pub struct RegExp {
    pub ast: Expression,
    pub config: RegExpConfig,
}

/// Splits a text into its lines as `str::lines` does.
fn split_lines(s: &Vec<char>) -> (r: Vec<Vec<char>>)
    ensures
        r@.map_values(|l: Vec<char>| l@) == lines_of(s@),
{
    let mut done: Vec<Vec<char>> = Vec::new();
    let mut cur: Vec<char> = Vec::new();
    let mut i: usize = 0;
    while i < s.len()
        invariant
            i <= s@.len(),
            (done@.map_values(|l: Vec<char>| l@), cur@) == split_state(s@.take(i as int)),
        decreases s.len() - i,
    {
        proof {
            assert(s@.take(i + 1).drop_last() =~= s@.take(i as int));
            assert(s@.take(i + 1).last() == s@[i as int]);
        }
        let c = s[i];
        if c == '\n' {
            let mut line = cur;
            if line.len() > 0 && line[line.len() - 1] == '\r' {
                line.pop();
            }
            let ghost prev = done@;
            done.push(line);
            proof {
                assert(done@.map_values(|l: Vec<char>| l@) =~= prev.map_values(|l: Vec<char>| l@).push(
                    line@,
                ));
            }
            cur = Vec::new();
        } else {
            cur.push(c);
        }
        i = i + 1;
    }
    proof {
        assert(s@.take(i as int) =~= s@);
    }
    if cur.len() > 0 {
        let ghost prev = done@;
        done.push(cur);
        proof {
            assert(done@.map_values(|l: Vec<char>| l@) =~= prev.map_values(|l: Vec<char>| l@).push(
                cur@,
            ));
        }
    }
    done
}

/// Whether `c` occurs in `s`.
fn contains_char(s: &Vec<char>, c: char) -> (b: bool)
    ensures
        b == has_char(s@, c),
{
    let mut i: usize = 0;
    while i < s.len()
        invariant
            i <= s@.len(),
            forall|j: int| 0 <= j < i ==> s@[j] != c,
        decreases s.len() - i,
    {
        if s[i] == c {
            return true;
        }
        i = i + 1;
    }
    false
}

/// Indents each line of a regular expression in the verbose layout by two spaces
/// per level of nesting in groups and anchors.
pub fn indent_regexp(regexp: String, config: &RegExpConfig) -> (s: String)
    ensures
        s@ == indented(regexp@, config.is_start_anchor_disabled),
{
    let chars = to_chars(regexp.as_str());
    let lines = split_lines(&chars);
    let ghost ls = lines_of(regexp@);
    let sd = config.is_start_anchor_disabled;
    let mut out: Vec<Vec<char>> = Vec::new();
    let mut nesting: u128 = 0;
    let mut i: usize = 0;
    while i < lines.len()
        invariant
            i <= lines@.len(),
            ls == lines@.map_values(|l: Vec<char>| l@),
            sd == config.is_start_anchor_disabled,
            nesting <= i + if i >= 2 {
                1int
            } else {
                0int
            },
            (nesting as nat, out@.map_values(|l: Vec<char>| l@)) == indent_state(ls, i as int, sd),
        decreases lines.len() - i,
    {
        let line = &lines[i];
        let ghost prev = out@;
        proof {
            assert(ls[i as int] == line@);
        }
        if i == 1 && sd {
            nesting = nesting + 1;
        }
        if line.len() != 0 {
            let colored = line.len() >= 2 && line[0] == '\u{1b}' && line[1] == '[';
            proof {
                if line@.len() >= 2 {
                    assert(line@.subrange(0, 2) =~= seq![line@[0], line@[1]]);
                }
                assert(colored == begins_with(line@, seq!['\u{1b}', '[']));
            }
            let is_dollar = line.len() == 1 && line[0] == '$';
            let closes = line[0] == ')';
            proof {
                assert(line@.subrange(0, 1) =~= seq![line@[0]]);
                if line@.len() == 1 {
                    assert(line@ =~= seq![line@[0]]);
                }
                assert(is_dollar == (line@ == seq!['$']));
                assert(closes == begins_with(line@, seq![')']));
            }
            if nesting > 0 && ((colored && (contains_char(line, '$') || contains_char(line, ')')))
                || (is_dollar || closes)) {
                nesting = nesting - 1;
            }
            let mut text: Vec<char> = Vec::new();
            let mut k: u128 = 0;
            while k < nesting
                invariant
                    k <= nesting,
                    text@ == spaces(2 * k as nat),
                decreases nesting - k,
            {
                text.push(' ');
                text.push(' ');
                k = k + 1;
                assert(text@ =~= spaces(2 * k as nat));
            }
            let mut j: usize = 0;
            while j < line.len()
                invariant
                    j <= line@.len(),
                    text@ == spaces(2 * nesting as nat) + line@.take(j as int),
                decreases line.len() - j,
            {
                text.push(line[j]);
                j = j + 1;
                assert(text@ =~= spaces(2 * nesting as nat) + line@.take(j as int));
            }
            proof {
                assert(line@.take(j as int) =~= line@);
            }
            out.push(text);
            proof {
                assert(out@.map_values(|l: Vec<char>| l@) =~= prev.map_values(|l: Vec<char>| l@).push(
                    spaces(2 * nesting as nat) + line@,
                ));
            }
            let is_caret = line.len() == 1 && line[0] == '^';
            let opens = line[0] == '(';
            proof {
                assert(line@.subrange(0, 1) =~= seq![line@[0]]);
                if line@.len() == 1 {
                    assert(line@ =~= seq![line@[0]]);
                }
                assert(is_caret == (line@ == seq!['^']));
                assert(opens == begins_with(line@, seq!['(']));
            }
            if (colored && (contains_char(line, '^') || (i > 0 && contains_char(line, '(')))) || (
            is_caret || (i > 0 && opens)) {
                nesting = nesting + 1;
            }
        }
        i = i + 1;
    }
    proof {
        assert(ls.len() == lines@.len());
    }
    let mut joined: Vec<char> = Vec::new();
    let mut q: usize = 0;
    let ghost outs = out@.map_values(|l: Vec<char>| l@);
    while q < out.len()
        invariant
            q <= out@.len(),
            outs == out@.map_values(|l: Vec<char>| l@),
            joined@ == join_lines(outs.take(q as int)),
        decreases out.len() - q,
    {
        proof {
            assert(outs.take(q + 1).drop_last() =~= outs.take(q as int));
            assert(outs.take(q + 1).last() == out@[q as int]@);
        }
        if q > 0 {
            joined.push('\n');
        }
        let l = &out[q];
        let mut j: usize = 0;
        let ghost base = joined@;
        while j < l.len()
            invariant
                j <= l@.len(),
                joined@ == base + l@.take(j as int),
            decreases l.len() - j,
        {
            joined.push(l[j]);
            j = j + 1;
            assert(joined@ =~= base + l@.take(j as int));
        }
        q = q + 1;
        proof {
            assert(l@.take(j as int) =~= l@);
            assert(joined@ =~= join_lines(outs.take(q as int)));
        }
    }
    proof {
        assert(outs.take(q as int) =~= outs);
    }
    from_chars(joined.as_slice())
}

/// Writes the line tabulation and the form feed as `\v` and `\f`.
fn escape_controls(s: &Vec<char>) -> (r: Vec<char>)
    ensures
        r@ == control_escaped(s@),
{
    let mut r: Vec<char> = Vec::new();
    let mut i: usize = 0;
    while i < s.len()
        invariant
            i <= s@.len(),
            r@ == control_escaped(s@.take(i as int)),
        decreases s.len() - i,
    {
        proof {
            assert(s@.take(i + 1).drop_last() =~= s@.take(i as int));
        }
        let c = s[i];
        if c == '\u{b}' {
            r.push('\\');
            r.push('v');
        } else if c == '\u{c}' {
            r.push('\\');
            r.push('f');
        } else {
            r.push(c);
        }
        i = i + 1;
        assert(r@ =~= control_escaped(s@.take(i as int)));
    }
    assert(s@.take(i as int) =~= s@);
    r
}

/// Escapes the number sign, whitespace and the space for the verbose layout.
fn escape_for_verbose_mode(s: &Vec<char>) -> (r: Vec<char>)
    ensures
        r@ == verbose_escaped(s@),
{
    let mut r: Vec<char> = Vec::new();
    let mut i: usize = 0;
    while i < s.len()
        invariant
            i <= s@.len(),
            r@ == verbose_escaped(s@.take(i as int)),
        decreases s.len() - i,
    {
        proof {
            assert(s@.take(i + 1).drop_last() =~= s@.take(i as int));
        }
        let c = s[i];
        if c == '#' {
            r.push('\\');
            r.push('#');
        } else if c == '\u{85}' || c == '\u{a0}' || c == '\u{1680}' || ('\u{2000}' <= c && c
            <= '\u{200a}') || c == '\u{2028}' || c == '\u{2029}' || c == '\u{202f}' || c
            == '\u{205f}' || c == '\u{3000}' {
            r.push('\\');
            r.push('s');
        } else if c == ' ' {
            r.push('\\');
            r.push(' ');
        } else {
            r.push(c);
        }
        i = i + 1;
        assert(r@ =~= verbose_escaped(s@.take(i as int)));
    }
    assert(s@.take(i as int) =~= s@);
    r
}

impl RegExp {
    /// A regular expression of an expression tree and the settings to write it with.
    pub fn new(ast: Expression, config: &RegExpConfig) -> (r: Self)
        ensures
            r.ast@ == ast@,
            r.config == *config,
    {
        RegExp { ast, config: *config }
    }

    /// The text of the regular expression: the flags, the anchors and the
    /// expression, an alternation in a group; in the verbose layout with escaped
    /// whitespace and indented lines.
    pub fn to_string(&self) -> (s: String)
        ensures
            s@ == regexp_text(self.ast@, self.config),
    {
        let col = self.config.is_output_colorized;
        let vb = self.config.is_verbose_mode_enabled;
        let flag = if self.config.is_case_insensitive_matching && vb {
            Component::IgnoreCaseAndVerboseModeFlag.to_repr(col)
        } else if self.config.is_case_insensitive_matching {
            Component::IgnoreCaseFlag.to_repr(col)
        } else if vb {
            Component::VerboseModeFlag.to_repr(col)
        } else {
            String::new()
        };
        let caret = if self.config.is_start_anchor_disabled {
            String::new()
        } else {
            Component::Caret(vb).to_repr(col)
        };
        let dollar_sign = if self.config.is_end_anchor_disabled {
            String::new()
        } else {
            Component::DollarSign(vb).to_repr(col)
        };
        let body = match &self.ast {
            Expression::Alternation(_) => {
                if self.config.is_capturing_group_enabled {
                    Component::CapturedParenthesizedExpression(self.ast.to_string(), vb, false).to_repr(col)
                } else {
                    Component::UncapturedParenthesizedExpression(self.ast.to_string(), vb, false).to_repr(col)
                }
            },
            _ => self.ast.to_string(),
        };
        proof {
            crate::ast::lemma_model_form(self.ast);
        }
        let mut text: Vec<char> = Vec::new();
        push_str(&mut text, flag.as_str());
        push_str(&mut text, caret.as_str());
        push_str(&mut text, body.as_str());
        push_str(&mut text, dollar_sign.as_str());
        let plain = escape_controls(&text);
        if vb {
            let escaped = escape_for_verbose_mode(&plain);
            indent_regexp(from_chars(escaped.as_slice()), &self.config)
        } else {
            from_chars(plain.as_slice())
        }
    }
}

proof fn lemma_control_escaped_concat(a: Seq<char>, b: Seq<char>)
    ensures
        control_escaped(a + b) == control_escaped(a) + control_escaped(b),
    decreases b.len(),
{
    if b.len() == 0 {
        assert(a + b =~= a);
        assert(control_escaped(a) + control_escaped(b) =~= control_escaped(a));
    } else {
        assert((a + b).drop_last() =~= a + b.drop_last());
        assert((a + b).last() == b.last());
        lemma_control_escaped_concat(a, b.drop_last());
        let t = if b.last() == '\u{b}' {
            seq!['\\', 'v']
        } else if b.last() == '\u{c}' {
            seq!['\\', 'f']
        } else {
            seq![b.last()]
        };
        assert(control_escaped(a + b) == control_escaped(a + b.drop_last()) + t);
        assert(control_escaped(b) == control_escaped(b.drop_last()) + t);
        assert(control_escaped(a) + control_escaped(b.drop_last()) + t =~= control_escaped(a) + (
        control_escaped(b.drop_last()) + t));
    }
}

proof fn lemma_control_escaped_plain(a: Seq<char>)
    requires
        forall|i: int| 0 <= i < a.len() ==> #[trigger] a[i] != '\u{b}' && a[i] != '\u{c}',
    ensures
        control_escaped(a) == a,
    decreases a.len(),
{
    if a.len() > 0 {
        assert(a[a.len() - 1] != '\u{b}' && a[a.len() - 1] != '\u{c}');
        lemma_control_escaped_plain(a.drop_last());
        assert(a.drop_last() + seq![a.last()] =~= a);
    }
}

proof fn lemma_verbose_escaped_concat(a: Seq<char>, b: Seq<char>)
    ensures
        verbose_escaped(a + b) == verbose_escaped(a) + verbose_escaped(b),
    decreases b.len(),
{
    if b.len() == 0 {
        assert(a + b =~= a);
        assert(verbose_escaped(a) + verbose_escaped(b) =~= verbose_escaped(a));
    } else {
        assert((a + b).drop_last() =~= a + b.drop_last());
        assert((a + b).last() == b.last());
        lemma_verbose_escaped_concat(a, b.drop_last());
        let t = if b.last() == '#' {
            seq!['\\', '#']
        } else if is_verbose_space(b.last()) {
            seq!['\\', 's']
        } else if b.last() == ' ' {
            seq!['\\', ' ']
        } else {
            seq![b.last()]
        };
        assert(verbose_escaped(a + b) == verbose_escaped(a + b.drop_last()) + t);
        assert(verbose_escaped(b) == verbose_escaped(b.drop_last()) + t);
        assert(verbose_escaped(a) + verbose_escaped(b.drop_last()) + t =~= verbose_escaped(a) + (
        verbose_escaped(b.drop_last()) + t));
    }
}

proof fn lemma_verbose_escaped_plain(a: Seq<char>)
    requires
        forall|i: int|
            0 <= i < a.len() ==> #[trigger] a[i] != '#' && a[i] != ' ' && !is_verbose_space(a[i]),
    ensures
        verbose_escaped(a) == a,
    decreases a.len(),
{
    if a.len() > 0 {
        assert(a[a.len() - 1] != '#');
        lemma_verbose_escaped_plain(a.drop_last());
        assert(a.drop_last() + seq![a.last()] =~= a);
    }
}

proof fn lemma_split_state_one_line(p: Seq<char>)
    requires
        forall|i: int| 0 <= i < p.len() ==> #[trigger] p[i] != '\n',
    ensures
        split_state(p) == (Seq::<Seq<char>>::empty(), p),
    decreases p.len(),
{
    if p.len() > 0 {
        assert(p[p.len() - 1] != '\n');
        lemma_split_state_one_line(p.drop_last());
        assert(p.drop_last().push(p.last()) =~= p);
    }
}

proof fn lemma_split_state_first_line(p: Seq<char>, r: Seq<char>)
    requires
        forall|i: int| 0 <= i < p.len() ==> #[trigger] p[i] != '\n',
    ensures
        split_state(p + seq!['\n'] + r).0.len() >= 1,
        split_state(p + seq!['\n'] + r).0[0] == strip_cr(p),
    decreases r.len(),
{
    let s = p + seq!['\n'] + r;
    if r.len() == 0 {
        lemma_split_state_one_line(p);
        assert(s.drop_last() =~= p);
        assert(s.last() == '\n');
    } else {
        assert(s.drop_last() =~= p + seq!['\n'] + r.drop_last());
        lemma_split_state_first_line(p, r.drop_last());
    }
}

proof fn lemma_indent_state_first_line(ls: Seq<Seq<char>>, k: int, start_disabled: bool)
    requires
        1 <= k <= ls.len(),
        ls[0].len() > 0,
    ensures
        indent_state(ls, k, start_disabled).1.len() >= 1,
        indent_state(ls, k, start_disabled).1[0] == ls[0],
    decreases k,
{
    if k == 1 {
        let prev = indent_state(ls, 0, start_disabled);
        assert(prev.0 == 0 && prev.1.len() == 0);
        assert(spaces(0) + ls[0] =~= ls[0]);
    } else {
        lemma_indent_state_first_line(ls, k - 1, start_disabled);
    }
}

proof fn lemma_join_lines_begins(ls: Seq<Seq<char>>)
    requires
        ls.len() >= 1,
    ensures
        begins_with(join_lines(ls), ls[0]),
    decreases ls.len(),
{
    if ls.len() == 1 {
        assert(join_lines(ls).subrange(0, ls[0].len() as int) =~= ls[0]);
    } else {
        lemma_join_lines_begins(ls.drop_last());
        let j = join_lines(ls.drop_last());
        assert(join_lines(ls) == j + seq!['\n'] + ls.last());
        assert((j + seq!['\n'] + ls.last()).subrange(0, ls[0].len() as int) =~= j.subrange(
            0,
            ls[0].len() as int,
        ));
    }
}

/// The verbose layout keeps the first line of a text that starts with a line of
/// its own.
proof fn lemma_indented_first_line(p: Seq<char>, r: Seq<char>, start_disabled: bool)
    requires
        p.len() > 0,
        p.last() != '\r',
        forall|i: int| 0 <= i < p.len() ==> #[trigger] p[i] != '\n',
    ensures
        begins_with(indented(p + seq!['\n'] + r, start_disabled), p),
{
    let s = p + seq!['\n'] + r;
    lemma_split_state_first_line(p, r);
    let st = split_state(s);
    let ls = lines_of(s);
    assert(ls.len() >= 1 && ls[0] == p);
    lemma_indent_state_first_line(ls, ls.len() as int, start_disabled);
    lemma_join_lines_begins(indent_state(ls, ls.len() as int, start_disabled).1);
}

/// A line of characters that the escapes leave as they are.
pub open spec fn plain_line(line: Seq<char>) -> bool {
    &&& line.len() > 0
    &&& line.last() != '\r'
    &&& forall|i: int|
        0 <= i < line.len() ==> #[trigger] line[i] != '\n' && line[i] != '\u{b}' && line[i] != '\u{c}'
            && line[i] != '#' && line[i] != ' ' && !is_verbose_space(line[i])
}

proof fn lemma_shown_flag_plain(group: Seq<char>, colored: bool)
    requires
        group.len() > 0,
        group.last() == ')',
        forall|i: int| 0 <= i < group.len() ==> #[trigger] group[i] == '(' || group[i] == '?'
            || group[i] == 'i' || group[i] == 'x' || group[i] == ')',
    ensures
        plain_line(shown_flag(group, colored)),
{
    let line = shown_flag(group, colored);
    if colored {
        let a = seq!['\u{1b}', '[', '4', '0', ';', '9', '3', 'm'];
        let b = seq!['\u{1b}', '[', '0', 'm'];
        assert(line == a + group + b);
        assert forall|i: int| 0 <= i < line.len() implies #[trigger] line[i] != '\n' && line[i] != '\u{b}'
            && line[i] != '\u{c}' && line[i] != '#' && line[i] != ' ' && !is_verbose_space(line[i]) by {
            if i < a.len() {
                assert(line[i] == a[i]);
            } else if i < a.len() + group.len() {
                assert(line[i] == group[i - a.len()]);
            } else {
                assert(line[i] == b[i - a.len() - group.len()]);
            }
        }
        assert(line.last() == 'm');
    }
}

/// Where the text starts with a flag line, the finished text starts with it.
proof fn lemma_flag_line_first(
    line: Seq<char>,
    flag: Seq<char>,
    rest: Seq<char>,
    vb: bool,
    start_disabled: bool,
)
    requires
        plain_line(line),
        flag == if vb {
            line + seq!['\n']
        } else {
            line
        },
    ensures
        begins_with(
            if vb {
                indented(verbose_escaped(control_escaped(flag + rest)), start_disabled)
            } else {
                control_escaped(flag + rest)
            },
            line,
        ),
{
    assert forall|i: int| 0 <= i < flag.len() implies #[trigger] flag[i] != '\u{b}' && flag[i] != '\u{c}'
        && flag[i] != '#' && flag[i] != ' ' && !is_verbose_space(flag[i]) by {
        if i < line.len() {
            assert(flag[i] == line[i]);
        }
    }
    lemma_control_escaped_concat(flag, rest);
    lemma_control_escaped_plain(flag);
    let plain = flag + control_escaped(rest);
    if vb {
        lemma_verbose_escaped_concat(flag, control_escaped(rest));
        lemma_verbose_escaped_plain(flag);
        let v = flag + verbose_escaped(control_escaped(rest));
        assert(v =~= line + seq!['\n'] + verbose_escaped(control_escaped(rest)));
        lemma_indented_first_line(line, verbose_escaped(control_escaped(rest)), start_disabled);
    } else {
        assert(plain.subrange(0, line.len() as int) =~= line);
    }
}

/// A flag group as it is written: its characters, wrapped in the escape sequences
/// that show it in bright yellow on black where the output is colored.
pub open spec fn shown_flag(group: Seq<char>, colored: bool) -> Seq<char> {
    if colored {
        seq!['\u{1b}', '[', '4', '0', ';', '9', '3', 'm'] + group + seq!['\u{1b}', '[', '0', 'm']
    } else {
        group
    }
}

/// With case-insensitive matching the text of a regular expression starts with a
/// flag group that holds `i`: `(?ix)` in the verbose layout and `(?i)` otherwise;
/// in the verbose layout without it, the text starts with `(?x)`; with neither, an
/// uncolored text starts with the caret where that is not disabled.
pub proof fn lemma_case_insensitive_flag(ast: ExprModel, config: RegExpConfig)
    ensures
        config.is_case_insensitive_matching && !config.is_verbose_mode_enabled ==> begins_with(
            regexp_text(ast, config),
            shown_flag(seq!['(', '?', 'i', ')'], config.is_output_colorized),
        ),
        config.is_case_insensitive_matching && config.is_verbose_mode_enabled ==> begins_with(
            regexp_text(ast, config),
            shown_flag(seq!['(', '?', 'i', 'x', ')'], config.is_output_colorized),
        ),
        !config.is_case_insensitive_matching && config.is_verbose_mode_enabled ==> begins_with(
            regexp_text(ast, config),
            shown_flag(seq!['(', '?', 'x', ')'], config.is_output_colorized),
        ),
        !config.is_case_insensitive_matching && !config.is_verbose_mode_enabled
            && !config.is_start_anchor_disabled && !config.is_output_colorized ==> begins_with(
            regexp_text(ast, config),
            seq!['^'],
        ),
{
    reveal_strlit("(?i)");
    reveal_strlit("(?ix)");
    reveal_strlit("(?x)");
    reveal_strlit("40;93");
    let col = config.is_output_colorized;
    let vb = config.is_verbose_mode_enabled;
    let caret = if config.is_start_anchor_disabled {
        Seq::empty()
    } else {
        Component::Caret(vb).repr(col)
    };
    let dollar_sign = if config.is_end_anchor_disabled {
        Seq::empty()
    } else {
        Component::DollarSign(vb).repr(col)
    };
    let body = if ast is Alt {
        parenthesized_repr(config.is_capturing_group_enabled, render(ast), vb, false, col)
    } else {
        render(ast)
    };
    let rest = caret + body + dollar_sign;
    if config.is_case_insensitive_matching || vb {
        let group: Seq<char> = if config.is_case_insensitive_matching && vb {
            seq!['(', '?', 'i', 'x', ')']
        } else if config.is_case_insensitive_matching {
            seq!['(', '?', 'i', ')']
        } else {
            seq!['(', '?', 'x', ')']
        };
        let line = shown_flag(group, col);
        let flag = if config.is_case_insensitive_matching && vb {
            Component::IgnoreCaseAndVerboseModeFlag.repr(col)
        } else if config.is_case_insensitive_matching {
            Component::IgnoreCaseFlag.repr(col)
        } else {
            Component::VerboseModeFlag.repr(col)
        };
        assert(flag =~= if vb {
            line + seq!['\n']
        } else {
            line
        });
        lemma_shown_flag_plain(group, col);
        assert(flag + caret + body + dollar_sign =~= flag + rest);
        lemma_flag_line_first(line, flag, rest, vb, config.is_start_anchor_disabled);
    } else if !config.is_start_anchor_disabled && !col {
        assert(caret =~= seq!['^']);
        assert(caret + body + dollar_sign =~= seq!['^'] + (body + dollar_sign));
        lemma_control_escaped_concat(seq!['^'], body + dollar_sign);
        lemma_control_escaped_plain(seq!['^']);
        assert(Seq::<char>::empty() + caret + body + dollar_sign =~= caret + body + dollar_sign);
        let t = seq!['^'] + control_escaped(body + dollar_sign);
        assert(t.subrange(0, 1) =~= seq!['^']);
    }
}

} // verus!
