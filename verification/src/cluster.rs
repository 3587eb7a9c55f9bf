//! A test case taken apart into its graphemes.
use crate::ast::{graphemes_of, split_graphemes, strings_view};
use crate::grapheme::{grapheme_models, Grapheme, GraphemeModel};
use crate::regexp::config::RegExpConfig;
use crate::repetition::{lemma_written_out_once, spelled, written_out};
use crate::substrings::{
    convert_repetitions, lemma_repetitions_keep_text, repetitions_of,
};
use crate::text::{from_chars, to_chars};
use unic_ucd_category::GeneralCategory;
use vstd::prelude::*;

verus! {

broadcast use vstd::seq::group_seq_axioms, vstd::seq_lib::group_seq_properties;

/// The character's general category in the tables of `unic-ucd-category` is a mark
/// (`Mn`, `Mc` or `Me`).
pub uninterp spec fn unicode_mark(c: char) -> bool;

/// The character's general category in the tables of `unic-ucd-category` is an
/// "other" category (`Cc`, `Cf`, `Cs`, `Co` or `Cn`).
pub uninterp spec fn unicode_other(c: char) -> bool;

/// The character's general category in the tables of `unic-ucd-category` is `Nd`.
pub uninterp spec fn unicode_decimal_number(c: char) -> bool;

/// The character's general category in the tables of `unic-ucd-category` is `Pc`.
pub uninterp spec fn unicode_connector_punctuation(c: char) -> bool;

/// The character has Unicode's `Alphabetic` property.
pub uninterp spec fn alphabetic(c: char) -> bool;

/// The character has Unicode's `White_Space` property: the tab, line feed, line
/// tabulation, form feed, carriage return, space, next line, no-break space, ogham
/// space mark, the spaces from en quad to hair space, the line and paragraph
/// separators, the narrow no-break space, the medium mathematical space and the
/// ideographic space.
pub open spec fn white_space(c: char) -> bool {
    ('\u{9}' <= c && c <= '\u{d}') || c == ' ' || c == '\u{85}' || c == '\u{a0}' || c == '\u{1680}'
        || ('\u{2000}' <= c && c <= '\u{200a}') || c == '\u{2028}' || c == '\u{2029}' || c
        == '\u{202f}' || c == '\u{205f}' || c == '\u{3000}'
}

/// `unic_ucd_category::GeneralCategory::of(c).is_mark()`. The contract claims that
/// the result is named by `unicode_mark`: the crate reads the category from a fixed
/// table.
#[verifier::external_body]
fn is_mark(c: char) -> (b: bool)
    ensures
        b == unicode_mark(c),
{
    GeneralCategory::of(c).is_mark()
}

/// `unic_ucd_category::GeneralCategory::of(c).is_other()`, named by `unicode_other`.
#[verifier::external_body]
fn is_other(c: char) -> (b: bool)
    ensures
        b == unicode_other(c),
{
    GeneralCategory::of(c).is_other()
}

/// Whether `unic_ucd_category::GeneralCategory::of(c)` is `DecimalNumber`, named by
/// `unicode_decimal_number`.
#[verifier::external_body]
fn is_decimal_number(c: char) -> (b: bool)
    ensures
        b == unicode_decimal_number(c),
{
    GeneralCategory::of(c) == GeneralCategory::DecimalNumber
}

/// Whether `unic_ucd_category::GeneralCategory::of(c)` is `ConnectorPunctuation`,
/// named by `unicode_connector_punctuation`.
#[verifier::external_body]
fn is_connector_punctuation(c: char) -> (b: bool)
    ensures
        b == unicode_connector_punctuation(c),
{
    GeneralCategory::of(c) == GeneralCategory::ConnectorPunctuation
}

/// Whether the character is alphabetic, with `char::is_alphabetic`; the contract
/// claims that the result is named by `alphabetic`, as std documents that the method
/// tests Unicode's `Alphabetic` property.
#[verifier::external_body]
fn is_alphabetic(c: char) -> (b: bool)
    ensures
        b == alphabetic(c),
{
    c.is_alphabetic()
}

/// Whether the character has Unicode's `White_Space` property, as
/// `char::is_whitespace` tells.
fn is_whitespace(c: char) -> (b: bool)
    ensures
        b == white_space(c),
{
    ('\u{9}' <= c && c <= '\u{d}') || c == ' ' || c == '\u{85}' || c == '\u{a0}' || c == '\u{1680}'
        || ('\u{2000}' <= c && c <= '\u{200a}') || c == '\u{2028}' || c == '\u{2029}' || c
        == '\u{202f}' || c == '\u{205f}' || c == '\u{3000}'
}

/// A decimal digit: `\d`.
pub open spec fn perl_digit(c: char) -> bool {
    unicode_decimal_number(c)
}

/// A word character: `\w`, that is alphabetic, a mark, a decimal digit, a connector
/// punctuation or a join control.
pub open spec fn perl_word(c: char) -> bool {
    alphabetic(c) || unicode_mark(c) || unicode_decimal_number(c) || unicode_connector_punctuation(c)
        || c == '\u{200c}' || c == '\u{200d}'
}

/// A whitespace character: `\s`.
pub open spec fn perl_space(c: char) -> bool {
    white_space(c)
}

/// Whether the character is a decimal digit.
pub fn is_digit(c: char) -> (b: bool)
    ensures
        b == perl_digit(c),
{
    is_decimal_number(c)
}

/// Whether the character is a word character.
pub fn is_word(c: char) -> (b: bool)
    ensures
        b == perl_word(c),
{
    if is_alphabetic(c) {
        return true;
    }
    is_mark(c) || is_decimal_number(c) || is_connector_punctuation(c) || c == '\u{200c}' || c
        == '\u{200d}'
}

/// Whether the character is whitespace.
pub fn is_space(c: char) -> (b: bool)
    ensures
        b == perl_space(c),
{
    is_whitespace(c)
}

/// A grapheme that is kept apart character by character: two characters one of which
/// is a backslash, or one with a mark or a control, format, private-use or
/// unassigned character in it.
pub open spec fn needs_split(g: Seq<char>) -> bool {
    ||| g.len() == 2 && (g[0] == '\\' || g[1] == '\\')
    ||| exists|i: int|
        0 <= i < g.len() && (unicode_mark(#[trigger] g[i]) || unicode_other(g[i]))
}

/// Each character of a text as a text of its own.
pub open spec fn single_chars(g: Seq<char>) -> Seq<Seq<char>> {
    Seq::new(g.len(), |i: int| seq![g[i]])
}

/// The strings of the graphemes of a test case: its grapheme clusters, each split
/// into its characters where `needs_split` says so.
pub open spec fn cluster_strings(gs: Seq<Seq<char>>) -> Seq<Seq<char>>
    decreases gs.len(),
{
    if gs.len() == 0 {
        Seq::empty()
    } else {
        cluster_strings(gs.drop_last()) + if needs_split(gs.last()) {
            single_chars(gs.last())
        } else {
            seq![gs.last()]
        }
    }
}

/// The grapheme of one string that occurs once.
pub open spec fn single_grapheme(s: Seq<char>, config: RegExpConfig) -> GraphemeModel {
    GraphemeModel { chars: seq![s], repetitions: Seq::empty(), min: 1, max: 1, config }
}

/// The graphemes of the given strings, each occurring once.
pub open spec fn singles(ts: Seq<Seq<char>>, config: RegExpConfig) -> Seq<GraphemeModel> {
    ts.map_values(|t: Seq<char>| single_grapheme(t, config))
}

proof fn lemma_singles_push(ts: Seq<Seq<char>>, t: Seq<char>, config: RegExpConfig)
    ensures
        singles(ts.push(t), config) == singles(ts, config).push(single_grapheme(t, config)),
{
    assert(singles(ts.push(t), config) =~= singles(ts, config).push(single_grapheme(t, config)));
}

proof fn lemma_singles_add(ts: Seq<Seq<char>>, us: Seq<Seq<char>>, config: RegExpConfig)
    ensures
        singles(ts + us, config) == singles(ts, config) + singles(us, config),
{
    assert(singles(ts + us, config) =~= singles(ts, config) + singles(us, config));
}

proof fn lemma_models_push(v: Seq<Grapheme>, g: Grapheme)
    ensures
        grapheme_models(v.push(g)) == grapheme_models(v).push(g@),
{
    assert(grapheme_models(v.push(g)) =~= grapheme_models(v).push(g@));
}

/// The number of characters of the values of the graphemes.
pub open spec fn cluster_char_count(gs: Seq<GraphemeModel>, is_non_ascii_char_escaped: bool) -> nat
    decreases gs.len(),
{
    if gs.len() == 0 {
        0
    } else {
        cluster_char_count(gs.drop_last(), is_non_ascii_char_escaped) + gs.last().char_count(
            is_non_ascii_char_escaped,
        )
    }
}

/// A prefix counts no more characters than the whole.
proof fn lemma_cluster_char_count_prefix(gs: Seq<GraphemeModel>, k: int, e: bool)
    requires
        0 <= k <= gs.len(),
    ensures
        cluster_char_count(gs.take(k), e) <= cluster_char_count(gs, e),
    decreases gs.len(),
{
    if k < gs.len() {
        assert(gs.drop_last().take(k) =~= gs.take(k));
        lemma_cluster_char_count_prefix(gs.drop_last(), k, e);
    } else {
        assert(gs.take(k) =~= gs);
    }
}

/// The value of a grapheme cluster.
pub struct ClusterModel {
    pub graphemes: Seq<GraphemeModel>,
    pub config: RegExpConfig,
}

/// The graphemes of a test case, with the settings they were made with.
pub struct GraphemeCluster {
    pub graphemes: Vec<Grapheme>,
    pub config: RegExpConfig,
}

impl View for GraphemeCluster {
    type V = ClusterModel;

    open spec fn view(&self) -> ClusterModel {
        ClusterModel {
            graphemes: grapheme_models(self.graphemes@),
            config: self.config,
        }
    }
}

/// The string a character is written as after conversion to character classes.
pub open spec fn char_class_text(c: char, config: RegExpConfig) -> Seq<char> {
    if config.is_digit_converted && perl_digit(c) {
        seq!['\\', 'd']
    } else if config.is_word_converted && perl_word(c) {
        seq!['\\', 'w']
    } else if config.is_space_converted && perl_space(c) {
        seq!['\\', 's']
    } else if config.is_non_digit_converted && !perl_digit(c) {
        seq!['\\', 'D']
    } else if config.is_non_word_converted && !perl_word(c) {
        seq!['\\', 'W']
    } else if config.is_non_space_converted && !perl_space(c) {
        seq!['\\', 'S']
    } else {
        seq![c]
    }
}

/// A string with each character converted to its character class.
pub open spec fn char_classes_text(s: Seq<char>, config: RegExpConfig) -> Seq<char>
    decreases s.len(),
{
    if s.len() == 0 {
        Seq::empty()
    } else {
        char_classes_text(s.drop_last(), config) + char_class_text(s.last(), config)
    }
}

/// A grapheme with the characters of its strings converted to character classes.
pub open spec fn grapheme_with_classes(g: GraphemeModel, config: RegExpConfig) -> GraphemeModel {
    GraphemeModel {
        chars: g.chars.map_values(|s: Seq<char>| char_classes_text(s, config)),
        ..g
    }
}

/// Whether a grapheme cluster is kept apart character by character.
fn grapheme_needs_split(g: &str) -> (b: bool)
    ensures
        b == needs_split(g@),
{
    let cs = to_chars(g);
    if cs.len() == 2 && (cs[0] == '\\' || cs[1] == '\\') {
        return true;
    }
    let mut i: usize = 0;
    while i < cs.len()
        invariant
            i <= cs@.len(),
            cs@ == g@,
            !(g@.len() == 2 && (g@[0] == '\\' || g@[1] == '\\')),
            forall|j: int| 0 <= j < i ==> !(unicode_mark(#[trigger] g@[j]) || unicode_other(g@[j])),
        decreases cs.len() - i,
    {
        if is_mark(cs[i]) || is_other(cs[i]) {
            return true;
        }
        i = i + 1;
    }
    false
}

impl GraphemeCluster {
    /// The graphemes of a test case: its extended grapheme clusters, each kept
    /// whole or split into its characters as `needs_split` says.
    pub fn from(s: &str, config: &RegExpConfig) -> (c: Self)
        ensures
            c@.config == *config,
            c@.graphemes == singles(cluster_strings(graphemes_of(s@)), *config),
    {
        let parts = split_graphemes(s);
        let ghost gs = strings_view(parts@);
        let mut graphemes: Vec<Grapheme> = Vec::new();
        let mut i: usize = 0;
        while i < parts.len()
            invariant
                i <= parts@.len(),
                gs == strings_view(parts@),
                gs == graphemes_of(s@),
                grapheme_models(graphemes@) == singles(cluster_strings(gs.take(i as int)), *config),
            decreases parts.len() - i,
        {
            let ghost before = grapheme_models(graphemes@);
            proof {
                assert(gs.take(i + 1).drop_last() =~= gs.take(i as int));
                assert(gs.take(i + 1).last() == parts@[i as int]@);
            }
            let it = parts[i].as_str();
            if grapheme_needs_split(it) {
                let cs = to_chars(it);
                let mut k: usize = 0;
                while k < cs.len()
                    invariant
                        k <= cs@.len(),
                        cs@ == it@,
                        grapheme_models(graphemes@) == before + singles(
                            single_chars(it@).take(k as int),
                            *config,
                        ),
                    decreases cs.len() - k,
                {
                    let one: Vec<char> = vec![cs[k]];
                    let text = from_chars(one.as_slice());
                    let g = Grapheme::from(text.as_str(), config);
                    let ghost prev = graphemes@;
                    graphemes.push(g);
                    proof {
                        lemma_models_push(prev, g);
                        assert(single_chars(it@).take(k + 1) =~= single_chars(it@).take(
                            k as int,
                        ).push(seq![it@[k as int]]));
                        lemma_singles_push(single_chars(it@).take(k as int), seq![it@[k as int]], *config);
                        assert(text@ =~= seq![it@[k as int]]);
                    }
                    k = k + 1;
                }
                proof {
                    assert(single_chars(it@).take(k as int) =~= single_chars(it@));
                    lemma_singles_add(cluster_strings(gs.take(i as int)), single_chars(it@), *config);
                }
            } else {
                let g = Grapheme::from(it, config);
                let ghost prev = graphemes@;
                graphemes.push(g);
                proof {
                    lemma_models_push(prev, g);
                    lemma_singles_add(cluster_strings(gs.take(i as int)), seq![it@], *config);
                    assert(singles(seq![it@], *config) =~= seq![single_grapheme(it@, *config)]);
                }
            }
            i = i + 1;
        }
        proof {
            assert(gs.take(i as int) =~= gs);
        }
        Self { graphemes, config: *config }
    }

    /// A cluster of the given graphemes.
    pub fn from_graphemes(graphemes: Vec<Grapheme>, config: &RegExpConfig) -> (c: Self)
        ensures
            c@.graphemes == grapheme_models(graphemes@),
            c@.config == *config,
    {
        Self { graphemes, config: *config }
    }

    /// A cluster of one grapheme.
    pub fn new(grapheme: Grapheme, config: &RegExpConfig) -> (c: Self)
        ensures
            c@.graphemes == seq![grapheme@],
            c@.config == *config,
    {
        let graphemes: Vec<Grapheme> = vec![grapheme];
        let c = Self { graphemes, config: *config };
        assert(c@.graphemes =~= seq![grapheme@]);
        c
    }

    /// The graphemes of two clusters, one after the other.
    pub fn merge(first: &GraphemeCluster, second: &GraphemeCluster, config: &RegExpConfig) -> (c:
        Self)
        ensures
            c@.graphemes == first@.graphemes + second@.graphemes,
            c@.config == *config,
    {
        let mut graphemes: Vec<Grapheme> = Vec::new();
        let mut i: usize = 0;
        while i < first.graphemes.len()
            invariant
                i <= first.graphemes@.len(),
                first@.graphemes == grapheme_models(first.graphemes@),
                grapheme_models(graphemes@) == first@.graphemes.take(i as int),
            decreases first.graphemes.len() - i,
        {
            let g = first.graphemes[i].copy();
            let ghost prev = graphemes@;
            graphemes.push(g);
            proof {
                lemma_models_push(prev, g);
                assert(first@.graphemes.take(i + 1) =~= first@.graphemes.take(i as int).push(g@));
            }
            i = i + 1;
        }
        let mut j: usize = 0;
        while j < second.graphemes.len()
            invariant
                j <= second.graphemes@.len(),
                second@.graphemes == grapheme_models(second.graphemes@),
                grapheme_models(graphemes@) == first@.graphemes + second@.graphemes.take(
                    j as int,
                ),
            decreases second.graphemes.len() - j,
        {
            proof {
                assert(first@.graphemes.take(first@.graphemes.len() as int) =~= first@.graphemes);
            }
            let g = second.graphemes[j].copy();
            let ghost prev = graphemes@;
            graphemes.push(g);
            proof {
                lemma_models_push(prev, g);
                assert(second@.graphemes.take(j + 1) =~= second@.graphemes.take(j as int).push(g@));
                assert(first@.graphemes + second@.graphemes.take(j + 1) =~= (first@.graphemes
                    + second@.graphemes.take(j as int)).push(g@));
            }
            j = j + 1;
        }
        assert(second@.graphemes.take(j as int) =~= second@.graphemes);
        Self { graphemes, config: *config }
    }

    /// The graphemes of the cluster.
    pub fn graphemes(&self) -> (g: &Vec<Grapheme>)
        ensures
            grapheme_models(g@) == self@.graphemes,
    {
        &self.graphemes
    }

    /// The graphemes of the cluster, to be changed in place.
    pub fn graphemes_mut(&mut self) -> (g: &mut Vec<Grapheme>)
        ensures
            *g == old(self).graphemes,
            *final(self) == (GraphemeCluster { graphemes: *final(g), ..*old(self) }),
    {
        &mut self.graphemes
    }

    /// The number of graphemes.
    pub fn size(&self) -> (n: usize)
        ensures
            n == self@.graphemes.len(),
    {
        self.graphemes.len()
    }

    /// Whether the cluster has no grapheme.
    pub fn is_empty(&self) -> (b: bool)
        ensures
            b == (self@.graphemes.len() == 0),
    {
        self.graphemes.len() == 0
    }

    /// The number of characters of the graphemes' values, counted after escaping
    /// their non-ASCII characters where `is_non_ascii_char_escaped`.
    pub fn char_count(&self, is_non_ascii_char_escaped: bool) -> (n: usize)
        requires
            cluster_char_count(self@.graphemes, is_non_ascii_char_escaped) <= usize::MAX,
        ensures
            n == cluster_char_count(self@.graphemes, is_non_ascii_char_escaped),
    {
        let ghost gs = self@.graphemes;
        let mut total: usize = 0;
        let mut i: usize = 0;
        while i < self.graphemes.len()
            invariant
                i <= self.graphemes@.len(),
                gs == self@.graphemes,
                cluster_char_count(gs, is_non_ascii_char_escaped) <= usize::MAX,
                total == cluster_char_count(gs.take(i as int), is_non_ascii_char_escaped),
            decreases self.graphemes.len() - i,
        {
            proof {
                assert(gs.take(i + 1).drop_last() =~= gs.take(i as int));
                assert(gs[i as int] == self.graphemes@[i as int]@);
                lemma_cluster_char_count_prefix(gs, i + 1, is_non_ascii_char_escaped);
            }
            let c = self.graphemes[i].char_count(is_non_ascii_char_escaped);
            total = total + c;
            i = i + 1;
        }
        proof {
            assert(gs.take(i as int) =~= gs);
        }
        total
    }

    /// Replaces repeated substrings of the graphemes by repeated graphemes, where
    /// something repeats.
    pub fn convert_repetitions(&mut self)
        ensures
            final(self)@.config == old(self)@.config,
            final(self)@.graphemes == if repetitions_of(old(self)@.graphemes, old(self)@.config).len()
                == 0 {
                old(self)@.graphemes
            } else {
                repetitions_of(old(self)@.graphemes, old(self)@.config)
            },
            old(self)@.graphemes.len() <= u32::MAX && (forall|i: int|
                0 <= i < old(self)@.graphemes.len() ==> (#[trigger] old(self)@.graphemes[i]).min
                    == 1) ==> written_out(final(self)@.graphemes) == spelled(old(self)@.graphemes),
    {
        let ghost before = self@;
        let mut repetitions: Vec<Grapheme> = Vec::new();
        proof {
            assert(grapheme_models(repetitions@) =~= Seq::<GraphemeModel>::empty());
        }
        convert_repetitions(self.graphemes.as_slice(), &mut repetitions, &self.config);
        if repetitions.len() != 0 {
            self.graphemes = repetitions;
        }
        proof {
            if before.graphemes.len() <= u32::MAX && (forall|i: int|
                0 <= i < before.graphemes.len() ==> (#[trigger] before.graphemes[i]).min == 1) {
                if repetitions_of(before.graphemes, before.config).len() == 0 {
                    lemma_written_out_once(before.graphemes);
                } else {
                    lemma_repetitions_keep_text(before.graphemes, before.config);
                }
            }
        }
    }

    /// Converts the characters of the graphemes to the character classes that the
    /// settings ask for.
    pub fn convert_to_char_classes(&mut self)
        ensures
            final(self)@.config == old(self)@.config,
            final(self)@.graphemes == old(self)@.graphemes.map_values(
                |g: GraphemeModel| grapheme_with_classes(g, old(self)@.config),
            ),
    {
        let ghost before = self@;
        let config = self.config;
        let mut i: usize = 0;
        while i < self.graphemes.len()
            invariant
                i <= self.graphemes@.len(),
                self.config == config,
                config == before.config,
                self.graphemes@.len() == before.graphemes.len(),
                forall|j: int|
                    0 <= j < i ==> (#[trigger] self.graphemes@[j])@ == grapheme_with_classes(
                        before.graphemes[j],
                        config,
                    ),
                forall|j: int|
                    i <= j < self.graphemes@.len() ==> (#[trigger] self.graphemes@[j])@
                        == before.graphemes[j],
            decreases self.graphemes.len() - i,
        {
            let new_chars = convert_strings(&self.graphemes[i].chars, &config);
            let mut g = self.graphemes[i].copy();
            g.chars = new_chars;
            proof {
                assert(g@.chars =~= before.graphemes[i as int].chars.map_values(
                    |s: Seq<char>| char_classes_text(s, config),
                ));
                assert(g@.repetitions =~= before.graphemes[i as int].repetitions);
            }
            self.graphemes.set(i, g);
            i = i + 1;
        }
        assert(self@.graphemes =~= before.graphemes.map_values(
            |g: GraphemeModel| grapheme_with_classes(g, config),
        ));
    }
}

/// The strings of a grapheme with their characters converted to character classes.
fn convert_strings(chars: &Vec<String>, config: &RegExpConfig) -> (r: Vec<String>)
    ensures
        strings_view(r@) == strings_view(chars@).map_values(
            |s: Seq<char>| char_classes_text(s, *config),
        ),
{
    let mut r: Vec<String> = Vec::new();
    let mut i: usize = 0;
    while i < chars.len()
        invariant
            i <= chars@.len(),
            r@.len() == i,
            forall|j: int|
                0 <= j < i ==> (#[trigger] r@[j])@ == char_classes_text(chars@[j]@, *config),
        decreases chars.len() - i,
    {
        r.push(convert_string(chars[i].as_str(), config));
        i = i + 1;
    }
    assert(strings_view(r@) =~= strings_view(chars@).map_values(
        |s: Seq<char>| char_classes_text(s, *config),
    ));
    r
}

/// A string with each character converted to its character class.
fn convert_string(s: &str, config: &RegExpConfig) -> (r: String)
    ensures
        r@ == char_classes_text(s@, *config),
{
    let cs = to_chars(s);
    let mut out: Vec<char> = Vec::new();
    let mut i: usize = 0;
    while i < cs.len()
        invariant
            i <= cs@.len(),
            cs@ == s@,
            out@ == char_classes_text(s@.take(i as int), *config),
        decreases cs.len() - i,
    {
        assert(s@.take(i + 1).drop_last() =~= s@.take(i as int));
        let c = cs[i];
        let digit = is_digit(c);
        let word = is_word(c);
        let space = is_space(c);
        if config.is_digit_converted && digit {
            out.push('\\');
            out.push('d');
        } else if config.is_word_converted && word {
            out.push('\\');
            out.push('w');
        } else if config.is_space_converted && space {
            out.push('\\');
            out.push('s');
        } else if config.is_non_digit_converted && !digit {
            out.push('\\');
            out.push('D');
        } else if config.is_non_word_converted && !word {
            out.push('\\');
            out.push('W');
        } else if config.is_non_space_converted && !space {
            out.push('\\');
            out.push('S');
        } else {
            out.push(c);
        }
        i = i + 1;
        assert(out@ =~= char_classes_text(s@.take(i as int), *config));
    }
    assert(s@.take(i as int) =~= s@);
    from_chars(out.as_slice())
}

/// Whether a character is one of those that a class's text stands for: `\d`, `\w`
/// and `\s` for the digits, word characters and whitespace, `\D`, `\W` and `\S`
/// for every other character, and any other text for the one character it spells.
pub open spec fn class_text_matches(text: Seq<char>, c: char) -> bool {
    if text == seq!['\\', 'd'] {
        perl_digit(c)
    } else if text == seq!['\\', 'D'] {
        !perl_digit(c)
    } else if text == seq!['\\', 'w'] {
        perl_word(c)
    } else if text == seq!['\\', 'W'] {
        !perl_word(c)
    } else if text == seq!['\\', 's'] {
        perl_space(c)
    } else if text == seq!['\\', 'S'] {
        !perl_space(c)
    } else {
        text == seq![c]
    }
}

/// Whether one of the settings asks for a character class that contains `c`.
pub open spec fn class_conversion_applies(c: char, config: RegExpConfig) -> bool {
    ||| config.is_digit_converted && perl_digit(c)
    ||| config.is_non_digit_converted && !perl_digit(c)
    ||| config.is_word_converted && perl_word(c)
    ||| config.is_non_word_converted && !perl_word(c)
    ||| config.is_space_converted && perl_space(c)
    ||| config.is_non_space_converted && !perl_space(c)
}

/// A converted character is written as a class that contains it; it is written as
/// a class (a backslash and a letter) exactly when one of the settings asks for a
/// class that contains it, and as itself otherwise. A digit is written `\d` where
/// digits are converted, and a character that a requested `\d`, `\w` or `\s`
/// contains is never written as a negated class.
pub proof fn lemma_char_class_contains_char(c: char, config: RegExpConfig)
    ensures
        class_text_matches(char_class_text(c, config), c),
        class_conversion_applies(c, config) ==> {
            let t = char_class_text(c, config);
            &&& t.len() == 2
            &&& t[0] == '\\'
            &&& seq!['d', 'D', 'w', 'W', 's', 'S'].contains(t[1])
        },
        !class_conversion_applies(c, config) ==> char_class_text(c, config) == seq![c],
        config.is_digit_converted && perl_digit(c) ==> char_class_text(c, config) == seq!['\\', 'd'],
        (config.is_word_converted && perl_word(c)) || (config.is_space_converted && perl_space(c))
            ==> seq!['d', 'w', 's'].contains(char_class_text(c, config)[1]),
{
    let t = char_class_text(c, config);
    let letters = seq!['d', 'D', 'w', 'W', 's', 'S'];
    assert(letters[0] == 'd' && letters[1] == 'D' && letters[2] == 'w');
    assert(letters[3] == 'W' && letters[4] == 's' && letters[5] == 'S');
    let d = seq!['\\', 'd'];
    let dd = seq!['\\', 'D'];
    let w = seq!['\\', 'w'];
    let ww = seq!['\\', 'W'];
    let sp = seq!['\\', 's'];
    let ss = seq!['\\', 'S'];
    assert(d[1] == 'd' && dd[1] == 'D' && w[1] == 'w' && ww[1] == 'W' && sp[1] == 's' && ss[1] == 'S');
    assert(d != dd && d != w && d != ww && d != sp && d != ss);
    assert(dd != w && dd != ww && dd != sp && dd != ss);
    assert(w != ww && w != sp && w != ss);
    assert(ww != sp && ww != ss);
    assert(sp != ss);
    let positive = seq!['d', 'w', 's'];
    assert(positive[0] == 'd' && positive[1] == 'w' && positive[2] == 's');
    if !class_conversion_applies(c, config) {
        let one = seq![c];
        assert(one.len() == 1);
        assert(one != d && one != dd && one != w && one != ww && one != sp && one != ss);
    }
}

} // verus!
