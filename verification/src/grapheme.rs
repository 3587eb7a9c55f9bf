//! A grapheme of a test case, possibly repeated, and its regular-expression text.
use crate::ast::strings_view;
use crate::color::{colorize, painted, style_for};
use crate::escape::{escape_all, escape_char, push_escaped, push_escaped_char, surrogate_escape};
use crate::postprocessing::convert_to_surrogate_pair as surrogate_pair_text;
use crate::regexp::config::RegExpConfig;
use crate::text::{decimal, decimal_string, from_chars, join_strings, push_str, to_chars};
use vstd::prelude::*;

verus! {

broadcast use vstd::seq::group_seq_axioms, vstd::seq_lib::group_seq_properties;

/// A grapheme: the strings it is made of, the graphemes of its repeated
/// substructure, and how often it repeats.
pub struct Grapheme {
    pub chars: Vec<String>,
    pub repetitions: Vec<Grapheme>,
    pub min: u32,
    pub max: u32,
    pub config: RegExpConfig,
}

/// The value of a grapheme.
#[verifier::ext_equal]
pub struct GraphemeModel {
    pub chars: Seq<Seq<char>>,
    pub repetitions: Seq<GraphemeModel>,
    pub min: u32,
    pub max: u32,
    pub config: RegExpConfig,
}

impl Grapheme {
    pub open spec fn model(&self) -> GraphemeModel
        decreases self,
    {
        GraphemeModel {
            chars: strings_view(self.chars@),
            repetitions: Seq::new(
                self.repetitions@.len(),
                |i: int|
                    if 0 <= i < self.repetitions@.len() {
                        self.repetitions@[i].model()
                    } else {
                        GraphemeModel {
                            chars: Seq::empty(),
                            repetitions: Seq::empty(),
                            min: 0,
                            max: 0,
                            config: self.config,
                        }
                    },
            ),
            min: self.min,
            max: self.max,
            config: self.config,
        }
    }
}

impl View for Grapheme {
    type V = GraphemeModel;

    open spec fn view(&self) -> GraphemeModel {
        self.model()
    }
}

/// The values of a sequence of graphemes.
pub open spec fn grapheme_models(v: Seq<Grapheme>) -> Seq<GraphemeModel> {
    v.map_values(|g: Grapheme| g@)
}

/// The values of graphemes after one is appended.
pub proof fn lemma_models_push(v: Seq<Grapheme>, g: Grapheme)
    ensures
        grapheme_models(v.push(g)) == grapheme_models(v).push(g@),
{
    assert(grapheme_models(v.push(g)) =~= grapheme_models(v).push(g@));
}

/// The values of graphemes after one is removed.
pub proof fn lemma_models_remove(v: Seq<Grapheme>, i: int)
    requires
        0 <= i < v.len(),
    ensures
        grapheme_models(v.remove(i)) == grapheme_models(v).remove(i),
{
    assert(grapheme_models(v.remove(i)) =~= grapheme_models(v).remove(i));
}

/// The values of graphemes after one is inserted.
pub proof fn lemma_models_insert(v: Seq<Grapheme>, i: int, g: Grapheme)
    requires
        0 <= i <= v.len(),
    ensures
        grapheme_models(v.insert(i, g)) == grapheme_models(v).insert(i, g@),
{
    assert(grapheme_models(v.insert(i, g)) =~= grapheme_models(v).insert(i, g@));
}

/// How often `c` occurs in `s`.
pub open spec fn count_char(s: Seq<char>, c: char) -> nat
    decreases s.len(),
{
    if s.len() == 0 {
        0
    } else {
        count_char(s.drop_last(), c) + if s.last() == c {
            1nat
        } else {
            0nat
        }
    }
}

/// A character escaped for regular-expression syntax: the symbols get a backslash
/// and the line feed, carriage return and tab are written `\n`, `\r` and `\t`.
pub open spec fn symbol_escape(c: char) -> Seq<char> {
    if c == '(' || c == ')' || c == '[' || c == ']' || c == '{' || c == '}' || c == '+' || c == '*'
        || c == '-' || c == '.' || c == '?' || c == '|' || c == '^' || c == '$' {
        seq!['\\', c]
    } else if c == '\n' {
        seq!['\\', 'n']
    } else if c == '\r' {
        seq!['\\', 'r']
    } else if c == '\t' {
        seq!['\\', 't']
    } else {
        seq![c]
    }
}

/// Every character of a string escaped with `symbol_escape`.
pub open spec fn symbols_escaped(s: Seq<char>) -> Seq<char>
    decreases s.len(),
{
    if s.len() == 0 {
        Seq::empty()
    } else {
        symbols_escaped(s.drop_last()) + symbol_escape(s.last())
    }
}

/// A string of a grapheme escaped for regular-expression syntax; a lone backslash
/// becomes two.
pub open spec fn string_escaped(s: Seq<char>) -> Seq<char> {
    let t = symbols_escaped(s);
    if t == seq!['\\'] {
        seq!['\\', '\\']
    } else {
        t
    }
}

/// The texts that a grapheme's regular-expression text is built of, in the order in
/// which they are highlighted.
pub open spec fn layout_texts(g: GraphemeModel, value: Seq<char>) -> Seq<Seq<char>> {
    seq![
        "(?:"@,
        "("@,
        ")"@,
        "{"@,
        "}"@,
        ","@,
        decimal(g.min as nat),
        decimal(g.max as nat),
        value,
    ]
}

/// A grapheme's regular-expression text put together from its (highlighted) parts:
/// the value with `{min}` or `{min,max}` after it, in a group where the value is
/// more than one character.
pub open spec fn layout(g: GraphemeModel, p: Seq<Seq<char>>) -> Seq<char> {
    let left = if g.config.is_capturing_group_enabled {
        p[1]
    } else {
        p[0]
    };
    if !g.is_range() && g.is_repetition() && g.is_single_char() {
        p[8] + p[3] + p[6] + p[4]
    } else if !g.is_range() && g.is_repetition() && !g.is_single_char() {
        left + p[8] + p[2] + p[3] + p[6] + p[4]
    } else if g.is_range() && g.is_single_char() {
        p[8] + p[3] + p[6] + p[5] + p[7] + p[4]
    } else if g.is_range() && !g.is_single_char() {
        left + p[8] + p[2] + p[3] + p[6] + p[5] + p[7] + p[4]
    } else {
        p[8]
    }
}

/// The regular-expression text of a grapheme without highlighting.
pub open spec fn plain_text(g: GraphemeModel) -> Seq<char>
    decreases g,
{
    let value = if g.repetitions.len() == 0 {
        g.value()
    } else {
        plain_texts(g.repetitions)
    };
    layout(g, layout_texts(g, value))
}

/// The texts of a sequence of graphemes without highlighting, one after the other.
pub open spec fn plain_texts(rs: Seq<GraphemeModel>) -> Seq<char>
    decreases rs,
{
    if rs.len() == 0 {
        Seq::empty()
    } else {
        plain_texts(rs.subrange(0, rs.len() - 1)) + plain_text(rs[rs.len() - 1])
    }
}

/// Each part of a grapheme's text is painted in the style of its component.
pub open spec fn layout_parts_ok(g: GraphemeModel, value: Seq<char>, parts: Seq<Seq<char>>) -> bool {
    &&& parts.len() == 9
    &&& forall|i: int|
        0 <= i < 9 ==> painted(
            style_for(layout_texts(g, value)[i], g.config.is_output_colorized),
            layout_texts(g, value)[i],
            #[trigger] parts[i],
        )
}

/// The text `s` is a grapheme's layout of parts painted in the styles of their
/// components, around its value: the text of its strings where it has no repeated
/// parts, and otherwise the texts that its repeated parts are shown as, one after
/// the other.
pub open spec fn shown_as(g: GraphemeModel, s: Seq<char>) -> bool
    decreases g,
{
    exists|value: Seq<char>, parts: Seq<Seq<char>>|
        #[trigger] layout_parts_ok(g, value, parts) && s == layout(g, parts) && if g.repetitions.len()
            == 0 {
            value == g.value()
        } else {
            shown_all(g.repetitions, value)
        }
}

/// The text `s` is the texts that a sequence of graphemes is shown as, one after the
/// other.
pub open spec fn shown_all(rs: Seq<GraphemeModel>, s: Seq<char>) -> bool
    decreases rs,
{
    if rs.len() == 0 {
        s.len() == 0
    } else {
        exists|a: Seq<char>, b: Seq<char>|
            #[trigger] (a + b) == s && shown_all(rs.subrange(0, rs.len() - 1), a) && shown_as(
                rs[rs.len() - 1],
                b,
            )
    }
}

impl GraphemeModel {
    /// The text of the grapheme's strings, one after the other.
    pub open spec fn value(self) -> Seq<char> {
        self.chars.flatten()
    }

    /// The number of characters of the value, counted after escaping its non-ASCII
    /// characters where `is_non_ascii_char_escaped`.
    pub open spec fn char_count(self, is_non_ascii_char_escaped: bool) -> nat {
        if is_non_ascii_char_escaped {
            escape_all(self.value(), false).len()
        } else {
            self.value().len()
        }
    }

    /// The value is one character, or one string with one backslash.
    pub open spec fn is_single_char(self) -> bool {
        self.char_count(false) == 1 || (self.chars.len() == 1 && count_char(self.chars[0], '\\')
            == 1)
    }

    pub open spec fn is_range(self) -> bool {
        self.min < self.max
    }

    pub open spec fn is_repetition(self) -> bool {
        self.min > 1
    }

    /// Neither the grapheme nor any of its repeated parts is highlighted.
    pub open spec fn uncolored(self) -> bool
        decreases self,
    {
        &&& !self.config.is_output_colorized
        &&& forall|i: int|
            #![trigger self.repetitions[i]]
            0 <= i < self.repetitions.len() ==> self.repetitions[i].uncolored()
    }
}

/// A copy of a vector of strings.
fn copy_strings(v: &Vec<String>) -> (r: Vec<String>)
    ensures
        strings_view(r@) == strings_view(v@),
{
    let mut r: Vec<String> = Vec::new();
    let mut i: usize = 0;
    while i < v.len()
        invariant
            i <= v.len(),
            strings_view(r@) == strings_view(v@.subrange(0, i as int)),
        decreases v.len() - i,
    {
        r.push(v[i].clone());
        assert(strings_view(v@.subrange(0, i + 1)) == strings_view(v@.subrange(0, i as int)).push(
            v@[i as int]@,
        ));
        i = i + 1;
    }
    assert(v@.subrange(0, v@.len() as int) == v@);
    r
}

impl Grapheme {
    /// A grapheme of one string that occurs once.
    pub fn from(s: &str, config: &RegExpConfig) -> (g: Self)
        ensures
            g@ == (GraphemeModel {
                chars: seq![s@],
                repetitions: Seq::empty(),
                min: 1,
                max: 1,
                config: *config,
            }),
    {
        let mut chars: Vec<String> = Vec::new();
        chars.push(s.to_owned());
        let g = Self { chars, repetitions: Vec::new(), min: 1, max: 1, config: *config };
        assert(g@.chars =~= seq![s@]);
        assert(g@.repetitions =~= Seq::<GraphemeModel>::empty());
        g
    }

    /// A grapheme of the given strings that repeats from `min` to `max` times.
    pub fn new(chars: Vec<String>, min: u32, max: u32, config: &RegExpConfig) -> (g: Self)
        ensures
            g@ == (GraphemeModel {
                chars: strings_view(chars@),
                repetitions: Seq::empty(),
                min,
                max,
                config: *config,
            }),
    {
        let g = Self { chars, repetitions: Vec::new(), min, max, config: *config };
        assert(g@.repetitions =~= Seq::<GraphemeModel>::empty());
        g
    }

    /// A copy of this grapheme.
    pub fn copy(&self) -> (r: Self)
        ensures
            r@ == self@,
        decreases self,
    {
        let mut reps: Vec<Grapheme> = Vec::new();
        let mut i: usize = 0;
        while i < self.repetitions.len()
            invariant
                i <= self.repetitions@.len(),
                reps@.len() == i,
                forall|j: int| 0 <= j < i ==> (#[trigger] reps@[j])@ == self.repetitions@[j]@,
            decreases self.repetitions.len() - i,
        {
            proof {
                let ghost rv = self.repetitions;
                assert(decreases_to!(*self => self.repetitions));
                assert(decreases_to!(rv => rv@));
                assert(decreases_to!(rv@ => rv@[i as int]));
            }
            let c = self.repetitions[i].copy();
            reps.push(c);
            i = i + 1;
        }
        let r = Self {
            chars: copy_strings(&self.chars),
            repetitions: reps,
            min: self.min,
            max: self.max,
            config: self.config,
        };
        assert(r@.repetitions =~= self@.repetitions);
        r
    }

    /// The text of the grapheme's strings, one after the other.
    pub fn value(&self) -> (s: String)
        ensures
            s@ == self@.value(),
    {
        join_strings(&self.chars)
    }

    /// The strings of the grapheme.
    pub fn chars(&self) -> (c: &Vec<String>)
        ensures
            strings_view(c@) == self@.chars,
    {
        &self.chars
    }

    /// The strings of the grapheme, to be changed in place.
    pub fn chars_mut(&mut self) -> (c: &mut Vec<String>)
        ensures
            *c == old(self).chars,
            *final(self) == (Grapheme { chars: *final(c), ..*old(self) }),
    {
        &mut self.chars
    }

    /// The repeated substructure of the grapheme, to be changed in place.
    pub fn repetitions_mut(&mut self) -> (r: &mut Vec<Grapheme>)
        ensures
            *r == old(self).repetitions,
            *final(self) == (Grapheme { repetitions: *final(r), ..*old(self) }),
    {
        &mut self.repetitions
    }

    /// Whether the grapheme has a repeated substructure.
    pub fn has_repetitions(&self) -> (b: bool)
        ensures
            b == (self@.repetitions.len() > 0),
    {
        self.repetitions.len() != 0
    }

    /// The least number of repetitions.
    pub fn minimum(&self) -> (n: u32)
        ensures
            n == self@.min,
    {
        self.min
    }

    /// The greatest number of repetitions.
    pub fn maximum(&self) -> (n: u32)
        ensures
            n == self@.max,
    {
        self.max
    }

    /// The number of characters of the value, counted after escaping its non-ASCII
    /// characters where `is_non_ascii_char_escaped`.
    pub fn char_count(&self, is_non_ascii_char_escaped: bool) -> (n: usize)
        requires
            self@.char_count(is_non_ascii_char_escaped) <= usize::MAX,
        ensures
            n == self@.char_count(is_non_ascii_char_escaped),
    {
        let text = to_chars(self.value().as_str());
        if is_non_ascii_char_escaped {
            let mut out: Vec<char> = Vec::new();
            push_escaped(&mut out, text.as_slice(), false);
            assert(out@ =~= escape_all(self@.value(), false));
            out.len()
        } else {
            text.len()
        }
    }

    /// Whether the value is exactly one character.
    fn is_one_char(&self) -> (b: bool)
        ensures
            b == (self@.value().len() == 1),
    {
        let text = to_chars(self.value().as_str());
        text.len() == 1
    }

    /// Escapes the non-ASCII characters of the grapheme's strings.
    pub fn escape_non_ascii_chars(&mut self, use_surrogate_pairs: bool)
        ensures
            final(self)@ == (GraphemeModel {
                chars: old(self)@.chars.map_values(|s: Seq<char>| escape_all(s, use_surrogate_pairs)),
                ..old(self)@
            }),
    {
        let ghost before = self@;
        let mut chars: Vec<String> = Vec::new();
        let mut i: usize = 0;
        while i < self.chars.len()
            invariant
                i <= self.chars@.len(),
                self@ == before,
                chars@.len() == i,
                forall|j: int|
                    0 <= j < i ==> (#[trigger] chars@[j])@ == escape_all(
                        self.chars@[j]@,
                        use_surrogate_pairs,
                    ),
            decreases self.chars.len() - i,
        {
            let text = to_chars(self.chars[i].as_str());
            let mut out: Vec<char> = Vec::new();
            push_escaped(&mut out, text.as_slice(), use_surrogate_pairs);
            assert(out@ =~= escape_all(self.chars@[i as int]@, use_surrogate_pairs));
            chars.push(from_chars(out.as_slice()));
            i = i + 1;
        }
        self.chars = chars;
        assert(self@.chars =~= before.chars.map_values(
            |s: Seq<char>| escape_all(s, use_surrogate_pairs),
        ));
        assert(self@.repetitions =~= before.repetitions);
    }

    /// Escapes the symbols of regular-expression syntax in the grapheme's strings
    /// and then, where asked, its non-ASCII characters.
    pub fn escape_regexp_symbols(
        &mut self,
        is_non_ascii_char_escaped: bool,
        is_astral_code_point_converted_to_surrogate: bool,
    )
        ensures
            final(self)@ == (GraphemeModel {
                chars: old(self)@.chars.map_values(
                    |s: Seq<char>|
                        if is_non_ascii_char_escaped {
                            escape_all(string_escaped(s), is_astral_code_point_converted_to_surrogate)
                        } else {
                            string_escaped(s)
                        },
                ),
                ..old(self)@
            }),
    {
        let ghost before = self@;
        let mut chars: Vec<String> = Vec::new();
        let mut i: usize = 0;
        while i < self.chars.len()
            invariant
                i <= self.chars@.len(),
                self@ == before,
                chars@.len() == i,
                forall|j: int|
                    0 <= j < i ==> (#[trigger] chars@[j])@ == string_escaped(self.chars@[j]@),
            decreases self.chars.len() - i,
        {
            chars.push(escape_string(self.chars[i].as_str()));
            i = i + 1;
        }
        self.chars = chars;
        assert(self@.chars =~= before.chars.map_values(|s: Seq<char>| string_escaped(s)));
        assert(self@.repetitions =~= before.repetitions);
        if is_non_ascii_char_escaped {
            self.escape_non_ascii_chars(is_astral_code_point_converted_to_surrogate);
        }
        assert(self@.chars =~= before.chars.map_values(
            |s: Seq<char>|
                if is_non_ascii_char_escaped {
                    escape_all(string_escaped(s), is_astral_code_point_converted_to_surrogate)
                } else {
                    string_escaped(s)
                },
        ));
    }

    /// A character as it is written when non-ASCII characters are escaped.
    pub fn escape(&self, c: char, use_surrogate_pairs: bool) -> (s: String)
        ensures
            s@ == escape_char(c, use_surrogate_pairs),
    {
        let mut out: Vec<char> = Vec::new();
        push_escaped_char(&mut out, c, use_surrogate_pairs);
        assert(out@ =~= escape_char(c, use_surrogate_pairs));
        from_chars(out.as_slice())
    }

    /// The `\u{..}` escapes of the UTF-16 code units of a character.
    pub fn convert_to_surrogate_pair(&self, c: char) -> (s: String)
        ensures
            s@ == surrogate_escape(c),
    {
        surrogate_pair_text(c)
    }

    /// Puts together the grapheme's text from its highlighted parts.
    pub fn layout(&self, parts: &Vec<String>, is_single_char: bool) -> (s: String)
        requires
            parts@.len() == 9,
            is_single_char == self@.is_single_char(),
        ensures
            s@ == layout(self@, parts@.map_values(|p: String| p@)),
    {
        let ghost p = parts@.map_values(|p: String| p@);
        let is_range = self.min < self.max;
        let is_repetition = self.min > 1;
        let left = if self.config.is_capturing_group_enabled {
            &parts[1]
        } else {
            &parts[0]
        };
        let mut out: Vec<char> = Vec::new();
        if !is_range && is_repetition && is_single_char {
            push_str(&mut out, parts[8].as_str());
            push_str(&mut out, parts[3].as_str());
            push_str(&mut out, parts[6].as_str());
            push_str(&mut out, parts[4].as_str());
        } else if !is_range && is_repetition && !is_single_char {
            push_str(&mut out, left.as_str());
            push_str(&mut out, parts[8].as_str());
            push_str(&mut out, parts[2].as_str());
            push_str(&mut out, parts[3].as_str());
            push_str(&mut out, parts[6].as_str());
            push_str(&mut out, parts[4].as_str());
        } else if is_range && is_single_char {
            push_str(&mut out, parts[8].as_str());
            push_str(&mut out, parts[3].as_str());
            push_str(&mut out, parts[6].as_str());
            push_str(&mut out, parts[5].as_str());
            push_str(&mut out, parts[7].as_str());
            push_str(&mut out, parts[4].as_str());
        } else if is_range && !is_single_char {
            push_str(&mut out, left.as_str());
            push_str(&mut out, parts[8].as_str());
            push_str(&mut out, parts[2].as_str());
            push_str(&mut out, parts[3].as_str());
            push_str(&mut out, parts[6].as_str());
            push_str(&mut out, parts[5].as_str());
            push_str(&mut out, parts[7].as_str());
            push_str(&mut out, parts[4].as_str());
        } else {
            push_str(&mut out, parts[8].as_str());
        }
        assert(out@ =~= layout(self@, p));
        from_chars(out.as_slice())
    }

    /// The grapheme's regular-expression text: its value, or the texts of its
    /// repeated parts, with `{min}` or `{min,max}` after it where it repeats, in a
    /// group where it is more than one character; highlighted where the settings
    /// ask for it.
    pub fn to_string(&self) -> (s: String)
        ensures
            shown_as(self@, s@),
            self@.uncolored() ==> s@ == plain_text(self@),
        decreases self,
    {
        let is_single_char = self.is_one_char() || (self.chars.len() == 1 && count_backslashes(
            self.chars[0].as_str(),
        ) == 1);
        let mut value = String::new();
        if self.repetitions.len() == 0 {
            value = self.value();
        } else {
            let ghost rs = self@.repetitions;
            let mut i: usize = 0;
            while i < self.repetitions.len()
                invariant
                    i <= self.repetitions@.len(),
                    rs == self@.repetitions,
                    self@.uncolored() ==> value@ == plain_texts(rs.subrange(0, i as int)),
                    shown_all(rs.subrange(0, i as int), value@),
                decreases self.repetitions.len() - i,
            {
                proof {
                    let ghost rv = self.repetitions;
                    assert(decreases_to!(*self => self.repetitions));
                    assert(decreases_to!(rv => rv@));
                    assert(decreases_to!(rv@ => rv@[i as int]));
                    assert(rs[i as int] == self.repetitions@[i as int]@);
                    assert(rs.subrange(0, i + 1).subrange(0, i as int) =~= rs.subrange(0, i as int));
                }
                let part = self.repetitions[i].to_string();
                let ghost before = value@;
                let mut out = to_chars(value.as_str());
                push_str(&mut out, part.as_str());
                value = from_chars(out.as_slice());
                proof {
                    let r1 = rs.subrange(0, i + 1);
                    assert(r1.subrange(0, r1.len() - 1) =~= rs.subrange(0, i as int));
                    assert(r1[r1.len() - 1] == rs[i as int]);
                    assert(value@ =~= before + part@);
                    assert(shown_all(r1, value@));
                }
                i = i + 1;
            }
            proof {
                assert(rs.subrange(0, i as int) =~= rs);
            }
        }
        let min_text = decimal_string(self.min);
        let max_text = decimal_string(self.max);
        let texts: Vec<&str> = vec![
            "(?:",
            "(",
            ")",
            "{",
            "}",
            ",",
            min_text.as_str(),
            max_text.as_str(),
            value.as_str(),
        ];
        proof {
            assert(texts@.map_values(|t: &str| t@) =~= layout_texts(self@, value@));
        }
        let parts = colorize(&texts, self.config.is_output_colorized);
        let s = self.layout(&parts, is_single_char);
        proof {
            let ghost pv = parts@.map_values(|p: String| p@);
            assert forall|i: int| 0 <= i < 9 implies painted(
                style_for(layout_texts(self@, value@)[i], self@.config.is_output_colorized),
                layout_texts(self@, value@)[i],
                #[trigger] pv[i],
            ) by {
                assert(texts@[i]@ == layout_texts(self@, value@)[i]);
                assert(pv[i] == parts@[i]@);
            }
            assert(layout_parts_ok(self@, value@, pv));
            if self@.repetitions.len() == 0 {
                assert(value@ == self@.value());
            } else {
                assert(shown_all(self@.repetitions, value@));
            }
            assert(s@ == layout(self@, pv));
            if self@.uncolored() {
                assert(pv =~= layout_texts(self@, value@));
            }
        }
        s
    }
}

/// How often a backslash occurs in a string.
fn count_backslashes(s: &str) -> (n: usize)
    ensures
        n == count_char(s@, '\\'),
{
    let cs = to_chars(s);
    let mut n: usize = 0;
    let mut i: usize = 0;
    while i < cs.len()
        invariant
            i <= cs@.len(),
            cs@ == s@,
            n == count_char(s@.subrange(0, i as int), '\\'),
            n <= i,
        decreases cs.len() - i,
    {
        assert(s@.subrange(0, i + 1).drop_last() =~= s@.subrange(0, i as int));
        if cs[i] == '\\' {
            n = n + 1;
        }
        i = i + 1;
    }
    assert(s@.subrange(0, i as int) =~= s@);
    n
}

/// A string of a grapheme escaped for regular-expression syntax.
fn escape_string(s: &str) -> (r: String)
    ensures
        r@ == string_escaped(s@),
{
    let cs = to_chars(s);
    let mut out: Vec<char> = Vec::new();
    let mut i: usize = 0;
    while i < cs.len()
        invariant
            i <= cs@.len(),
            cs@ == s@,
            out@ == symbols_escaped(s@.subrange(0, i as int)),
        decreases cs.len() - i,
    {
        assert(s@.subrange(0, i + 1).drop_last() =~= s@.subrange(0, i as int));
        let c = cs[i];
        if c == '(' || c == ')' || c == '[' || c == ']' || c == '{' || c == '}' || c == '+' || c
            == '*' || c == '-' || c == '.' || c == '?' || c == '|' || c == '^' || c == '$' {
            out.push('\\');
            out.push(c);
        } else if c == '\n' {
            out.push('\\');
            out.push('n');
        } else if c == '\r' {
            out.push('\\');
            out.push('r');
        } else if c == '\t' {
            out.push('\\');
            out.push('t');
        } else {
            out.push(c);
        }
        i = i + 1;
        assert(out@ =~= symbols_escaped(s@.subrange(0, i as int)));
    }
    assert(s@.subrange(0, i as int) =~= s@);
    if out.len() == 1 && out[0] == '\\' {
        assert(out@ =~= seq!['\\']);
        out.push('\\');
    }
    from_chars(out.as_slice())
}

impl Clone for Grapheme {
    fn clone(&self) -> (r: Self)
        ensures
            r@ == self@,
    {
        self.copy()
    }
}

} // verus!
