//! Unicode escape sequences and UTF-16 surrogate pairs for non-ASCII characters.
use crate::text::{hex, push_digits};
use vstd::prelude::*;

verus! {

broadcast use vstd::seq::group_seq_axioms, vstd::seq_lib::group_seq_properties;

/// A character of the ASCII range.
pub open spec fn is_ascii_char(c: char) -> bool {
    (c as u32) < 128
}

/// Every character of the text is an ASCII character.
pub open spec fn all_ascii(s: Seq<char>) -> bool {
    forall|i: int| 0 <= i < s.len() ==> is_ascii_char(#[trigger] s[i])
}

/// The escape sequence `\u{h}` of a code unit or code point, `h` in lowercase hexadecimal.
pub open spec fn unicode_escape_of(n: nat) -> Seq<char> {
    seq!['\\', 'u', '{'] + hex(n) + seq!['}']
}

/// The escape sequence of a character, as `char::escape_unicode` writes it.
pub open spec fn unicode_escape(c: char) -> Seq<char> {
    unicode_escape_of(c as nat)
}

/// Every character of the text written as its escape sequence, as `str::escape_unicode` does.
pub open spec fn unicode_escape_all(s: Seq<char>) -> Seq<char>
    decreases s.len(),
{
    if s.len() == 0 {
        Seq::empty()
    } else {
        unicode_escape_all(s.drop_last()) + unicode_escape(s.last())
    }
}

/// The UTF-16 code units of a character: the code point itself in the basic plane,
/// otherwise a high and a low surrogate.
pub open spec fn utf16_units(c: char) -> Seq<nat> {
    let v = c as int;
    if v < 0x10000 {
        seq![v as nat]
    } else {
        seq![(0xD800 + (v - 0x10000) / 0x400) as nat, (0xDC00 + (v - 0x10000) % 0x400) as nat]
    }
}

/// The escape sequences of the UTF-16 code units of a character.
pub open spec fn surrogate_escape(c: char) -> Seq<char> {
    let u = utf16_units(c);
    if u.len() == 1 {
        unicode_escape_of(u[0])
    } else {
        unicode_escape_of(u[0]) + unicode_escape_of(u[1])
    }
}

/// A character of an astral plane, converted to a surrogate pair: from U+10000 to
/// U+10FFFF.
pub open spec fn is_converted_astral(c: char) -> bool {
    0x10000 <= (c as int) <= 0x10FFFF
}

/// How a character is written when non-ASCII characters are escaped.
pub open spec fn escape_char(c: char, use_surrogate_pairs: bool) -> Seq<char> {
    if is_ascii_char(c) {
        seq![c]
    } else if use_surrogate_pairs && is_converted_astral(c) {
        surrogate_escape(c)
    } else {
        unicode_escape(c)
    }
}

/// A text with each character written as `escape_char` writes it.
pub open spec fn escape_all(s: Seq<char>, use_surrogate_pairs: bool) -> Seq<char>
    decreases s.len(),
{
    if s.len() == 0 {
        Seq::empty()
    } else {
        escape_all(s.drop_last(), use_surrogate_pairs) + escape_char(s.last(), use_surrogate_pairs)
    }
}

/// Escaping distributes over concatenation.
pub proof fn lemma_escape_all_concat(a: Seq<char>, b: Seq<char>, use_surrogate_pairs: bool)
    ensures
        escape_all(a + b, use_surrogate_pairs) == escape_all(a, use_surrogate_pairs) + escape_all(
            b,
            use_surrogate_pairs,
        ),
    decreases b.len(),
{
    if b.len() == 0 {
        assert(a + b =~= a);
    } else {
        lemma_escape_all_concat(a, b.drop_last(), use_surrogate_pairs);
        assert((a + b).drop_last() =~= a + b.drop_last());
        assert((a + b).last() == b.last());
    }
}

/// Digits are ASCII characters.
proof fn lemma_digits_ascii(n: nat, base: nat)
    requires
        2 <= base <= 16,
    ensures
        all_ascii(crate::text::digits(n, base)),
    decreases n,
{
    if n >= base {
        assert(n / base < n) by (nonlinear_arith)
            requires
                n >= base,
                base >= 2,
        ;
        lemma_digits_ascii(n / base, base);
    }
}

/// An escape sequence is made of ASCII characters.
proof fn lemma_unicode_escape_of_ascii(n: nat)
    ensures
        all_ascii(unicode_escape_of(n)),
{
    lemma_digits_ascii(n, 16);
    let e = unicode_escape_of(n);
    let h = hex(n);
    assert forall|i: int| 0 <= i < e.len() implies is_ascii_char(#[trigger] e[i]) by {
        if 3 <= i < 3 + h.len() {
            assert(e[i] == h[i - 3]);
        }
    }
}

/// Escaping non-ASCII characters leaves only ASCII characters.
pub proof fn lemma_escape_all_ascii(s: Seq<char>, use_surrogate_pairs: bool)
    ensures
        all_ascii(escape_all(s, use_surrogate_pairs)),
    decreases s.len(),
{
    if s.len() > 0 {
        lemma_escape_all_ascii(s.drop_last(), use_surrogate_pairs);
        let c = s.last();
        let a = escape_all(s.drop_last(), use_surrogate_pairs);
        let e = escape_char(c, use_surrogate_pairs);
        if is_ascii_char(c) {
        } else if use_surrogate_pairs && is_converted_astral(c) {
            let u = utf16_units(c);
            lemma_unicode_escape_of_ascii(u[0]);
            if u.len() == 2 {
                lemma_unicode_escape_of_ascii(u[1]);
                let x = unicode_escape_of(u[0]);
                let y = unicode_escape_of(u[1]);
                assert forall|i: int| 0 <= i < (x + y).len() implies is_ascii_char(#[trigger] (x + y)[i]) by {
                    if i < x.len() {
                        assert((x + y)[i] == x[i]);
                    } else {
                        assert((x + y)[i] == y[i - x.len()]);
                    }
                }
            }
        } else {
            lemma_unicode_escape_of_ascii(c as nat);
        }
        assert(all_ascii(e));
        assert forall|i: int| 0 <= i < (a + e).len() implies is_ascii_char(#[trigger] (a + e)[i]) by {
            if i < a.len() {
                assert((a + e)[i] == a[i]);
            } else {
                assert((a + e)[i] == e[i - a.len()]);
            }
        }
    }
}

/// Whether a character is an ASCII character.
pub fn char_is_ascii(c: char) -> (b: bool)
    ensures
        b == is_ascii_char(c),
{
    (c as u32) < 128
}

/// Appends the escape sequence `\u{h}` of `n`.
pub fn push_unicode_escape_of(out: &mut Vec<char>, n: u32)
    ensures
        final(out)@ == old(out)@ + unicode_escape_of(n as nat),
{
    out.push('\\');
    out.push('u');
    out.push('{');
    push_digits(out, n, 16);
    out.push('}');
    assert(final(out)@ =~= old(out)@ + unicode_escape_of(n as nat));
}

/// Appends the escape sequence of a character.
pub fn push_unicode_escape(out: &mut Vec<char>, c: char)
    ensures
        final(out)@ == old(out)@ + unicode_escape(c),
{
    let v = c as u32;
    assert(v as nat == c as nat);
    push_unicode_escape_of(out, v);
}

/// Appends the escape sequences of the UTF-16 code units of `c`.
pub fn push_surrogate_escape(out: &mut Vec<char>, c: char)
    ensures
        final(out)@ == old(out)@ + surrogate_escape(c),
{
    let v = c as u32;
    if v < 0x10000 {
        push_unicode_escape_of(out, v);
    } else {
        let high = 0xD800 + (v - 0x10000) / 0x400;
        let low = 0xDC00 + (v - 0x10000) % 0x400;
        push_unicode_escape_of(out, high);
        push_unicode_escape_of(out, low);
        assert(final(out)@ =~= old(out)@ + surrogate_escape(c));
    }
}

/// Appends a character as it is written when non-ASCII characters are escaped.
pub fn push_escaped_char(out: &mut Vec<char>, c: char, use_surrogate_pairs: bool)
    ensures
        final(out)@ == old(out)@ + escape_char(c, use_surrogate_pairs),
{
    if char_is_ascii(c) {
        out.push(c);
        assert(final(out)@ =~= old(out)@ + seq![c]);
    } else if use_surrogate_pairs && (c as u32) >= 0x10000 && (c as u32) <= 0x10FFFF {
        push_surrogate_escape(out, c);
    } else {
        push_unicode_escape(out, c);
    }
}

/// Appends every character of `s` as it is written when non-ASCII characters are escaped.
pub fn push_escaped(out: &mut Vec<char>, s: &[char], use_surrogate_pairs: bool)
    ensures
        final(out)@ == old(out)@ + escape_all(s@, use_surrogate_pairs),
{
    let mut i: usize = 0;
    while i < s.len()
        invariant
            i <= s@.len(),
            out@ == old(out)@ + escape_all(s@.take(i as int), use_surrogate_pairs),
        decreases s.len() - i,
    {
        proof {
            assert(s@.take(i + 1).drop_last() =~= s@.take(i as int));
        }
        push_escaped_char(out, s[i], use_surrogate_pairs);
        i = i + 1;
        proof {
            assert(out@ =~= old(out)@ + escape_all(s@.take(i as int), use_surrogate_pairs));
        }
    }
    proof {
        assert(s@.take(i as int) =~= s@);
    }
}

/// Appends every character of `s` as its escape sequence.
pub fn push_unicode_escape_all(out: &mut Vec<char>, s: &[char])
    ensures
        final(out)@ == old(out)@ + unicode_escape_all(s@),
{
    let mut i: usize = 0;
    while i < s.len()
        invariant
            i <= s@.len(),
            out@ == old(out)@ + unicode_escape_all(s@.take(i as int)),
        decreases s.len() - i,
    {
        proof {
            assert(s@.take(i + 1).drop_last() =~= s@.take(i as int));
        }
        push_unicode_escape(out, s[i]);
        i = i + 1;
        proof {
            assert(out@ =~= old(out)@ + unicode_escape_all(s@.take(i as int)));
        }
    }
    proof {
        assert(s@.take(i as int) =~= s@);
    }
}

/// Whether every character of `s` is an ASCII character.
pub fn chars_are_ascii(s: &[char]) -> (b: bool)
    ensures
        b == all_ascii(s@),
{
    let mut i: usize = 0;
    while i < s.len()
        invariant
            i <= s@.len(),
            forall|j: int| 0 <= j < i ==> is_ascii_char(#[trigger] s@[j]),
        decreases s.len() - i,
    {
        if !char_is_ascii(s[i]) {
            return false;
        }
        i = i + 1;
    }
    true
}

/// The surrogates of an astral character decode back to it: the high one lies in
/// U+D800..U+DBFF, the low one in U+DC00..U+DFFF, and
/// `0x10000 + (high - 0xD800) * 0x400 + (low - 0xDC00)` is the character's code point.
pub proof fn lemma_surrogate_pair_round_trip(c: char)
    requires
        (c as int) >= 0x10000,
    ensures
        utf16_units(c).len() == 2,
        0xD800 <= utf16_units(c)[0] <= 0xDBFF,
        0xDC00 <= utf16_units(c)[1] <= 0xDFFF,
        0x10000 + (utf16_units(c)[0] - 0xD800) * 0x400 + (utf16_units(c)[1] - 0xDC00) == c as int,
{
    let v = c as int - 0x10000;
    assert(v < 0x100000);
    assert(0 <= v / 0x400 < 0x400);
    assert(v == (v / 0x400) * 0x400 + v % 0x400);
}

/// Escaping leaves ASCII text as it is.
pub proof fn lemma_escape_ascii_unchanged(s: Seq<char>, use_surrogate_pairs: bool)
    requires
        all_ascii(s),
    ensures
        escape_all(s, use_surrogate_pairs) == s,
    decreases s.len(),
{
    if s.len() > 0 {
        assert(all_ascii(s.drop_last())) by {
            assert forall|i: int| 0 <= i < s.drop_last().len() implies is_ascii_char(
                #[trigger] s.drop_last()[i],
            ) by {
                assert(s.drop_last()[i] == s[i]);
            }
        }
        lemma_escape_ascii_unchanged(s.drop_last(), use_surrogate_pairs);
        assert(is_ascii_char(s[s.len() - 1]));
        assert(s =~= s.drop_last().push(s.last()));
    }
}

/// Escaped text is ASCII, and escaping it again changes nothing.
pub proof fn lemma_escape_idempotent(s: Seq<char>, use_surrogate_pairs: bool)
    ensures
        all_ascii(escape_all(s, use_surrogate_pairs)),
        escape_all(escape_all(s, use_surrogate_pairs), use_surrogate_pairs) == escape_all(
            s,
            use_surrogate_pairs,
        ),
{
    lemma_escape_all_ascii(s, use_surrogate_pairs);
    lemma_escape_ascii_unchanged(escape_all(s, use_surrogate_pairs), use_surrogate_pairs);
}

} // verus!
