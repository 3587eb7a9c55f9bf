//! The regular-expression syntax of expressions.
use crate::ast::{ExprModel, Expression, Quantifier};
use crate::escape::{
    all_ascii, chars_are_ascii, push_unicode_escape_all, unicode_escape, unicode_escape_all,
};
use crate::text::{digit_char, extend_chars, from_chars, hex, to_chars};
use vstd::prelude::*;

verus! {

broadcast use vstd::seq::group_seq_axioms, vstd::seq_lib::group_seq_properties;

/// The character that writes a quantifier.
pub open spec fn quantifier_char(q: Quantifier) -> char {
    match q {
        Quantifier::KleeneStar => '*',
        Quantifier::QuestionMark => '?',
    }
}

/// A character with a meaning of its own in regular-expression syntax.
pub open spec fn is_regexp_symbol(c: char) -> bool {
    c == '(' || c == ')' || c == '[' || c == ']' || c == '{' || c == '}' || c == '\\' || c == '+'
        || c == '*' || c == '-' || c == '.' || c == '?' || c == '|' || c == '^' || c == '$'
}

/// How a grapheme of a literal is written: control characters and symbols are
/// escaped with a backslash, and a grapheme with a non-ASCII character is written
/// character by character as `\u{..}` escapes.
pub open spec fn render_grapheme(g: Seq<char>) -> Seq<char> {
    if g == seq!['\t'] {
        seq!['\\', 't']
    } else if g == seq!['\n'] {
        seq!['\\', 'n']
    } else if g == seq!['\r'] {
        seq!['\\', 'r']
    } else if g.len() == 1 && is_regexp_symbol(g[0]) {
        seq!['\\', g[0]]
    } else if all_ascii(g) {
        g
    } else {
        unicode_escape_all(g)
    }
}

/// The graphemes of a literal, each written as `render_grapheme` writes it.
pub open spec fn render_graphemes(gs: Seq<Seq<char>>) -> Seq<char>
    decreases gs.len(),
{
    if gs.len() == 0 {
        Seq::empty()
    } else {
        render_graphemes(gs.drop_last()) + render_grapheme(gs.last())
    }
}

/// Whether a subexpression is put in parentheses inside an expression of the given
/// precedence: when it binds more loosely and is not a single grapheme.
pub open spec fn needs_group(m: ExprModel, outer: int) -> bool {
    m.precedence() < outer && !m.is_single_codepoint()
}

/// A subexpression's text, in parentheses where `needs_group` asks for them.
pub open spec fn grouped(m: ExprModel, outer: int, text: Seq<char>) -> Seq<char> {
    if needs_group(m, outer) {
        seq!['('] + text + seq![')']
    } else {
        text
    }
}

/// The regular-expression syntax of an expression.
pub open spec fn render(m: ExprModel) -> Seq<char>
    decreases m,
{
    match m {
        ExprModel::Alt(o) => render_options(o),
        ExprModel::Cat(a, b) => grouped(*a, 2, render(*a)) + grouped(*b, 2, render(*b)),
        ExprModel::Lit(g) => render_graphemes(g),
        ExprModel::Rep(e, q) => grouped(*e, 3, render(*e)).push(quantifier_char(q)),
    }
}

/// The options of an alternation, separated by `|`.
pub open spec fn render_options(o: Seq<ExprModel>) -> Seq<char>
    decreases o,
{
    if o.len() == 0 {
        Seq::empty()
    } else if o.len() == 1 {
        grouped(o[0], 1, render(o[0]))
    } else {
        render_options(o.subrange(0, o.len() - 1)).push('|') + grouped(
            o[o.len() - 1],
            1,
            render(o[o.len() - 1]),
        )
    }
}

impl Quantifier {
    /// The character that writes this quantifier.
    pub fn to_char(&self) -> (c: char)
        ensures
            c == quantifier_char(*self),
    {
        match self {
            Quantifier::KleeneStar => '*',
            Quantifier::QuestionMark => '?',
        }
    }

    /// The text of this quantifier.
    pub fn to_string(&self) -> (s: String)
        ensures
            s@ == seq![quantifier_char(*self)],
    {
        let v: Vec<char> = vec![self.to_char()];
        from_chars(v.as_slice())
    }
}

/// Whether a character has a meaning of its own in regular-expression syntax.
pub fn is_symbol(c: char) -> (b: bool)
    ensures
        b == is_regexp_symbol(c),
{
    c == '(' || c == ')' || c == '[' || c == ']' || c == '{' || c == '}' || c == '\\' || c == '+'
        || c == '*' || c == '-' || c == '.' || c == '?' || c == '|' || c == '^' || c == '$'
}

/// Appends a grapheme of a literal as `render_grapheme` writes it.
fn push_grapheme(out: &mut Vec<char>, g: &str)
    ensures
        final(out)@ == old(out)@ + render_grapheme(g@),
{
    let cs = to_chars(g);
    let single = cs.len() == 1;
    if single && cs[0] == '\t' {
        assert(g@ =~= seq!['\t']);
        out.push('\\');
        out.push('t');
    } else if single && cs[0] == '\n' {
        assert(g@ =~= seq!['\n']);
        out.push('\\');
        out.push('n');
    } else if single && cs[0] == '\r' {
        assert(g@ =~= seq!['\r']);
        out.push('\\');
        out.push('r');
    } else if single && is_symbol(cs[0]) {
        out.push('\\');
        out.push(cs[0]);
    } else if chars_are_ascii(cs.as_slice()) {
        extend_chars(out, cs.as_slice());
    } else {
        push_unicode_escape_all(out, cs.as_slice());
    }
}

/// Appends the graphemes of a literal.
fn push_graphemes(out: &mut Vec<char>, gs: &Vec<String>)
    ensures
        final(out)@ == old(out)@ + render_graphemes(crate::ast::strings_view(gs@)),
{
    let ghost v = crate::ast::strings_view(gs@);
    let mut i: usize = 0;
    while i < gs.len()
        invariant
            i <= gs@.len(),
            v == crate::ast::strings_view(gs@),
            out@ == old(out)@ + render_graphemes(v.take(i as int)),
        decreases gs.len() - i,
    {
        proof {
            assert(v.take(i + 1).drop_last() =~= v.take(i as int));
        }
        push_grapheme(out, gs[i].as_str());
        i = i + 1;
        proof {
            assert(out@ =~= old(out)@ + render_graphemes(v.take(i as int)));
        }
    }
    proof {
        assert(v.take(i as int) =~= v);
    }
}

impl Expression {
    /// Appends the regular-expression syntax of a subexpression of an expression
    /// of precedence `outer`, in parentheses where `needs_group` asks for them.
    fn write_operand(&self, outer: u8, out: &mut Vec<char>)
        ensures
            final(out)@ == old(out)@ + grouped(self@, outer as int, render(self@)),
        decreases self, 1int,
    {
        let group = self.precedence() < outer && !self.is_single_codepoint();
        if group {
            out.push('(');
        }
        self.write_to(out);
        if group {
            out.push(')');
        }
        assert(final(out)@ =~= old(out)@ + grouped(self@, outer as int, render(self@)));
    }

    /// Appends the regular-expression syntax of this expression.
    pub fn write_to(&self, out: &mut Vec<char>)
        ensures
            final(out)@ == old(out)@ + render(self@),
        decreases self, 0int,
    {
        match self {
            Expression::Alternation(options) => {
                let ghost o = self@->Alt_0;
                let mut i: usize = 0;
                while i < options.len()
                    invariant
                        *self == Expression::Alternation(*options),
                        o == self@->Alt_0,
                        o.len() == options@.len(),
                        forall|j: int| 0 <= j < o.len() ==> #[trigger] o[j] == options@[j]@,
                        i <= options.len(),
                        out@ == old(out)@ + render_options(o.take(i as int)),
                    decreases options.len() - i,
                {
                    proof {
                        let ghost ov = self->Alternation_0;
                        assert(decreases_to!(*self => self->Alternation_0));
                        assert(decreases_to!(ov => ov@));
                        assert(decreases_to!(ov@ => ov@[i as int]));
                        assert(o[i as int] == options@[i as int]@);
                        assert(o.take(i + 1).subrange(0, i as int) =~= o.take(i as int));
                    }
                    if i > 0 {
                        out.push('|');
                    }
                    options[i].write_operand(1, out);
                    i = i + 1;
                    proof {
                        if i == 1 {
                            assert(out@ =~= old(out)@ + render_options(o.take(i as int)));
                        } else {
                            assert(out@ =~= old(out)@ + render_options(o.take(i as int)));
                        }
                    }
                }
                proof {
                    assert(o.take(i as int) =~= o);
                }
            },
            Expression::Concatenation(a, b) => {
                a.write_operand(2, out);
                b.write_operand(2, out);
                assert(final(out)@ =~= old(out)@ + render(self@));
            },
            Expression::Literal(graphemes) => {
                push_graphemes(out, graphemes);
            },
            Expression::Repetition(e, q) => {
                e.write_operand(3, out);
                out.push(q.to_char());
                assert(final(out)@ =~= old(out)@ + render(self@));
            },
        }
    }

    /// The regular-expression syntax of this expression.
    pub fn to_string(&self) -> (s: String)
        ensures
            s@ == render(self@),
    {
        let mut out: Vec<char> = Vec::new();
        self.write_to(&mut out);
        assert(out@ =~= render(self@));
        from_chars(out.as_slice())
    }
}

/// A character that a regular expression does not take literally where it stands
/// unescaped: `( ) [ ] { } \ + * - . ? | ^ $`.
pub open spec fn reserved_in_regex(c: char) -> bool {
    ||| c == '$'
    ||| c == '^'
    ||| c == '|'
    ||| c == '?'
    ||| c == '.'
    ||| c == '-'
    ||| c == '*'
    ||| c == '+'
    ||| c == '\\'
    ||| c == '}'
    ||| c == '{'
    ||| c == ']'
    ||| c == '['
    ||| c == ')'
    ||| c == '('
}

/// The character that a backslash followed by `c` stands for, among the escapes
/// of literal characters: `\t`, `\n`, `\r`, and a reserved character.
pub open spec fn escaped_meaning(c: char) -> Option<char> {
    if c == 't' {
        Some('\t')
    } else if c == 'n' {
        Some('\n')
    } else if c == 'r' {
        Some('\r')
    } else if reserved_in_regex(c) {
        Some(c)
    } else {
        None
    }
}

/// The code point of a character.
pub open spec fn code_of(c: char) -> int {
    c as int
}

/// A lowercase hexadecimal digit.
pub open spec fn is_hex_digit(c: char) -> bool {
    (0x30 <= c as int && c as int <= 0x39) || (0x61 <= c as int && c as int <= 0x66)
}

/// The value of a hexadecimal digit.
pub open spec fn hex_digit_value(c: char) -> int {
    if c as int <= 0x39 {
        c as int - 0x30
    } else {
        c as int - 0x61 + 10
    }
}

/// The number of hexadecimal digits at the start of `t`.
pub open spec fn hex_prefix_len(t: Seq<char>) -> nat
    decreases t.len(),
{
    if t.len() > 0 && is_hex_digit(t[0]) {
        1 + hex_prefix_len(t.skip(1))
    } else {
        0
    }
}

/// The value of hexadecimal digits, most significant first.
pub open spec fn hex_value(ds: Seq<char>) -> int
    decreases ds.len(),
{
    if ds.len() == 0 {
        0
    } else {
        hex_value(ds.drop_last()) * 16 + hex_digit_value(ds.last())
    }
}

/// `p` in front of what was read, if anything was.
pub open spec fn prefixed(p: Seq<char>, o: Option<Seq<char>>) -> Option<Seq<char>> {
    match o {
        Some(r) => Some(p + r),
        None => None,
    }
}

/// The characters that a regular expression made only of literal characters
/// matches, read from its text: a backslash and the next character are one
/// escape, `\u{h}` is the character of code point `h` (hexadecimal), an unescaped
/// reserved character is refused (`None`), and any other character stands for
/// itself.
pub open spec fn read_regex_literal(t: Seq<char>) -> Option<Seq<char>>
    decreases t.len(),
{
    if t.len() == 0 {
        Some(Seq::empty())
    } else if t[0] == '\\' {
        if t.len() >= 2 && escaped_meaning(t[1]) is Some {
            prefixed(seq![escaped_meaning(t[1])->0], read_regex_literal(t.skip(2)))
        } else if t.len() >= 3 && t[1] == 'u' && t[2] == '{' {
            let rest = t.skip(3);
            let k = hex_prefix_len(rest);
            let v = hex_value(rest.take(k as int));
            if 1 <= k < rest.len() && rest[k as int] == '}' && exists|c: char| #[trigger] code_of(c) == v {
                prefixed(
                    seq![choose|c: char| #[trigger] code_of(c) == v],
                    read_regex_literal(rest.skip(k + 1int)),
                )
            } else {
                None
            }
        } else {
            None
        }
    } else if reserved_in_regex(t[0]) {
        None
    } else {
        prefixed(seq![t[0]], read_regex_literal(t.skip(1)))
    }
}

/// A grapheme with a character beyond ASCII, a single character, or one without
/// reserved characters.
pub open spec fn plain_grapheme(g: Seq<char>) -> bool {
    ||| !all_ascii(g)
    ||| g.len() == 1
    ||| forall|i: int| 0 <= i < g.len() ==> !reserved_in_regex(#[trigger] g[i])
}

proof fn lemma_digit_char_hex(d: int)
    requires
        0 <= d < 16,
    ensures
        is_hex_digit(digit_char(d)),
        hex_digit_value(digit_char(d)) == d,
{
}

proof fn lemma_hex_digits(n: nat)
    ensures
        hex(n).len() >= 1,
        forall|i: int| 0 <= i < hex(n).len() ==> is_hex_digit(#[trigger] hex(n)[i]),
        hex_value(hex(n)) == n,
    decreases n,
{
    if n < 16 {
        lemma_digit_char_hex(n as int);
        assert(hex(n) == seq![digit_char(n as int)]);
        assert(hex(n).drop_last() =~= Seq::<char>::empty());
        assert(hex_value(hex(n)) == hex_value(hex(n).drop_last()) * 16 + hex_digit_value(
            hex(n).last(),
        ));
    } else {
        assert(n / 16 < n);
        lemma_hex_digits(n / 16);
        lemma_digit_char_hex((n % 16) as int);
        let h = hex(n / 16);
        assert(hex(n) == h.push(digit_char((n % 16) as int)));
        assert(hex(n).drop_last() =~= h);
        assert forall|i: int| 0 <= i < hex(n).len() implies is_hex_digit(#[trigger] hex(n)[i]) by {
            if i < h.len() {
                assert(hex(n)[i] == h[i]);
            }
        }
        assert(hex(n).last() == digit_char((n % 16) as int));
        assert(hex_value(hex(n)) == hex_value(h) * 16 + hex_digit_value(hex(n).last()));
        assert((n / 16) * 16 + n % 16 == n);
    }
}

proof fn lemma_hex_prefix_len(ds: Seq<char>, u: Seq<char>)
    requires
        forall|i: int| 0 <= i < ds.len() ==> is_hex_digit(#[trigger] ds[i]),
        u.len() > 0,
        !is_hex_digit(u[0]),
    ensures
        hex_prefix_len(ds + u) == ds.len(),
    decreases ds.len(),
{
    if ds.len() == 0 {
        assert(ds + u =~= u);
    } else {
        assert((ds + u)[0] == ds[0]);
        assert((ds + u).skip(1) =~= ds.skip(1) + u);
        lemma_hex_prefix_len(ds.skip(1), u);
    }
}

proof fn lemma_read_unicode_escape(c: char, t: Seq<char>)
    ensures
        read_regex_literal(unicode_escape(c) + t) == prefixed(seq![c], read_regex_literal(t)),
{
    let h = hex(c as nat);
    lemma_hex_digits(c as nat);
    let u = unicode_escape(c) + t;
    assert(u == seq!['\\', 'u', '{'] + h + seq!['}'] + t);
    assert(u[0] == '\\' && u[1] == 'u' && u[2] == '{');
    assert(escaped_meaning('u') is None);
    let rest = u.skip(3);
    assert(rest =~= h + (seq!['}'] + t));
    lemma_hex_prefix_len(h, seq!['}'] + t);
    let k = hex_prefix_len(rest);
    assert(k == h.len());
    assert(rest.take(k as int) =~= h);
    assert(rest[k as int] == '}');
    assert(rest.skip(k + 1int) =~= t);
    assert(code_of(c) == hex_value(rest.take(k as int)));
    let d = choose|d: char| #[trigger] code_of(d) == hex_value(rest.take(k as int));
    assert(code_of(d) == code_of(c));
    assert(d == c);
}

proof fn lemma_read_unicode_escape_all(g: Seq<char>, t: Seq<char>)
    ensures
        read_regex_literal(unicode_escape_all(g) + t) == prefixed(g, read_regex_literal(t)),
    decreases g.len(),
{
    if g.len() == 0 {
        assert(unicode_escape_all(g) + t =~= t);
        match read_regex_literal(t) {
            Some(r) => {
                assert(g + r =~= r);
            },
            None => {},
        }
    } else {
        let init = g.drop_last();
        let last = g.last();
        lemma_read_unicode_escape(last, t);
        let t2 = unicode_escape(last) + t;
        assert(unicode_escape_all(g) == unicode_escape_all(init) + unicode_escape(last));
        assert(unicode_escape_all(g) + t =~= unicode_escape_all(init) + t2);
        lemma_read_unicode_escape_all(init, t2);
        match read_regex_literal(t) {
            Some(r) => {
                assert(init + (seq![last] + r) =~= g + r);
            },
            None => {},
        }
    }
}

proof fn lemma_read_unreserved(g: Seq<char>, t: Seq<char>)
    requires
        forall|i: int| 0 <= i < g.len() ==> !reserved_in_regex(#[trigger] g[i]),
    ensures
        read_regex_literal(g + t) == prefixed(g, read_regex_literal(t)),
    decreases g.len(),
{
    if g.len() > 0 {
        assert(!reserved_in_regex(g[0]));
        assert((g + t)[0] == g[0]);
        assert((g + t).skip(1) =~= g.skip(1) + t);
        lemma_read_unreserved(g.skip(1), t);
        assert(seq![g[0]] + g.skip(1) =~= g);
        match read_regex_literal(t) {
            Some(r) => {
                assert(seq![g[0]] + (g.skip(1) + r) =~= g + r);
            },
            None => {},
        }
    } else {
        assert(g + t =~= t);
        match read_regex_literal(t) {
            Some(r) => {
                assert(g + r =~= r);
            },
            None => {},
        }
    }
}

proof fn lemma_read_escape(c: char, m: char, t: Seq<char>)
    requires
        escaped_meaning(c) == Some(m),
    ensures
        read_regex_literal(seq!['\\', c] + t) == prefixed(seq![m], read_regex_literal(t)),
{
    let u = seq!['\\', c] + t;
    assert(u[0] == '\\');
    assert(u[1] == c);
    assert(u.skip(2) =~= t);
}

proof fn lemma_read_rendered_grapheme(g: Seq<char>, t: Seq<char>)
    requires
        plain_grapheme(g),
    ensures
        read_regex_literal(render_grapheme(g) + t) == prefixed(g, read_regex_literal(t)),
{
    if g == seq!['\t'] {
        lemma_read_escape('t', '\t', t);
    } else if g == seq!['\n'] {
        lemma_read_escape('n', '\n', t);
    } else if g == seq!['\r'] {
        lemma_read_escape('r', '\r', t);
    } else if g.len() == 1 && is_regexp_symbol(g[0]) {
        assert(g =~= seq![g[0]]);
        lemma_read_escape(g[0], g[0], t);
    } else if all_ascii(g) {
        if g.len() == 1 {
            assert(!reserved_in_regex(g[0]));
        }
        lemma_read_unreserved(g, t);
    } else {
        lemma_read_unicode_escape_all(g, t);
    }
}

proof fn lemma_read_rendered_graphemes(gs: Seq<Seq<char>>, t: Seq<char>)
    requires
        forall|i: int| 0 <= i < gs.len() ==> plain_grapheme(#[trigger] gs[i]),
    ensures
        read_regex_literal(render_graphemes(gs) + t) == prefixed(gs.flatten(), read_regex_literal(t)),
    decreases gs.len(),
{
    if gs.len() == 0 {
        assert(render_graphemes(gs) + t =~= t);
        match read_regex_literal(t) {
            Some(r) => {
                assert(gs.flatten() + r =~= r);
            },
            None => {},
        }
    } else {
        let init = gs.drop_last();
        let last = gs.last();
        assert(plain_grapheme(gs[gs.len() - 1]));
        lemma_read_rendered_grapheme(last, t);
        let t2 = render_grapheme(last) + t;
        assert(render_graphemes(gs) + t =~= render_graphemes(init) + t2);
        lemma_read_rendered_graphemes(init, t2);
        assert(init.push(last) =~= gs);
        init.lemma_flatten_push(last);
        match read_regex_literal(t) {
            Some(r) => {
                assert(init.flatten() + (last + r) =~= gs.flatten() + r);
            },
            None => {},
        }
    }
}

/// The text of a literal, read back as a regular expression, matches exactly the
/// literal's characters: each reserved character is written behind a backslash,
/// tab, line feed and carriage return as `\t`, `\n` and `\r`, and every other
/// ASCII character as itself, a grapheme with a character beyond ASCII as `\u{..}`
/// escapes (for literals whose ASCII graphemes are single characters or hold no
/// reserved character).
pub proof fn lemma_literal_text_reads_back(gs: Seq<Seq<char>>)
    requires
        forall|i: int| 0 <= i < gs.len() ==> plain_grapheme(#[trigger] gs[i]),
    ensures
        read_regex_literal(render(ExprModel::Lit(gs))) == Some(gs.flatten()),
{
    lemma_read_rendered_graphemes(gs, Seq::empty());
    assert(render_graphemes(gs) + Seq::<char>::empty() =~= render_graphemes(gs));
    assert(gs.flatten() + Seq::<char>::empty() =~= gs.flatten());
}

/// Each reserved character, as a one-character grapheme of a literal, is written
/// behind a backslash.
pub proof fn lemma_reserved_character_escaped(c: char)
    requires
        reserved_in_regex(c),
    ensures
        render(ExprModel::Lit(seq![seq![c]])) == seq!['\\', c],
{
    let g = seq![c];
    let gs = seq![g];
    assert(g.len() == 1 && g[0] == c);
    assert(g != seq!['\t'] && g != seq!['\n'] && g != seq!['\r']) by {
        assert(seq!['\t'][0] == '\t');
        assert(seq!['\n'][0] == '\n');
        assert(seq!['\r'][0] == '\r');
    }
    assert(render_grapheme(g) == seq!['\\', c]);
    assert(gs.drop_last() =~= Seq::<Seq<char>>::empty());
    assert(gs.last() == g);
    assert(render_graphemes(gs) =~= render_graphemes(gs.drop_last()) + render_grapheme(g));
}

/// `t` in parentheses where `wrap` holds.
pub open spec fn parenthesized_if(wrap: bool, t: Seq<char>) -> Seq<char> {
    if wrap {
        seq!['('] + t + seq![')']
    } else {
        t
    }
}

/// A quantifier applies to the whole of its operand: the text of a repetition is
/// the operand's text followed by the quantifier's character, with the operand in
/// parentheses unless it is a single grapheme or a repetition itself.
pub proof fn lemma_repetition_groups_operand(e: ExprModel, q: Quantifier)
    ensures
        render(ExprModel::Rep(Box::new(e), q)) == parenthesized_if(
            !((e matches ExprModel::Lit(g) && g.len() == 1) || e is Rep),
            render(e),
        ).push(quantifier_char(q)),
{
    assert(render(ExprModel::Rep(Box::new(e), q)) == grouped(e, 3, render(e)).push(quantifier_char(q)));
}

/// In a concatenation an operand is put in parentheses exactly when it is an
/// alternation.
pub proof fn lemma_concatenation_groups_alternations(a: ExprModel, b: ExprModel)
    ensures
        render(ExprModel::Cat(Box::new(a), Box::new(b))) == parenthesized_if(a is Alt, render(a))
            + parenthesized_if(b is Alt, render(b)),
{
    assert(grouped(a, 2, render(a)) == parenthesized_if(a is Alt, render(a)));
    assert(grouped(b, 2, render(b)) == parenthesized_if(b is Alt, render(b)));
}

/// Texts separated by `|`.
pub open spec fn pipe_joined(ts: Seq<Seq<char>>) -> Seq<char>
    decreases ts.len(),
{
    if ts.len() == 0 {
        Seq::empty()
    } else if ts.len() == 1 {
        ts[0]
    } else {
        pipe_joined(ts.drop_last()).push('|') + ts.last()
    }
}

proof fn lemma_render_options_joined(o: Seq<ExprModel>)
    ensures
        render_options(o) == pipe_joined(o.map_values(|m: ExprModel| render(m))),
    decreases o.len(),
{
    let ts = o.map_values(|m: ExprModel| render(m));
    if o.len() == 1 {
        assert(grouped(o[0], 1, render(o[0])) == render(o[0]));
    } else if o.len() > 1 {
        let init = o.subrange(0, o.len() - 1);
        lemma_render_options_joined(init);
        assert(init.map_values(|m: ExprModel| render(m)) =~= ts.drop_last());
        assert(grouped(o[o.len() - 1], 1, render(o[o.len() - 1])) == render(o[o.len() - 1]));
        assert(ts.last() == render(o[o.len() - 1]));
    }
}

/// An alternation's text is its options' texts separated by `|`, none of them in
/// parentheses.
pub proof fn lemma_alternation_text(o: Seq<ExprModel>)
    ensures
        render(ExprModel::Alt(o)) == pipe_joined(o.map_values(|m: ExprModel| render(m))),
{
    lemma_render_options_joined(o);
}

} // verus!
