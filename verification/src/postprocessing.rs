//! Escaping of the non-ASCII characters of a finished regular expression.
use crate::escape::{escape_all, push_escaped, push_surrogate_escape, surrogate_escape};
use crate::text::{from_chars, to_chars};
use vstd::prelude::*;

verus! {

/// Writes each non-ASCII character of `regex` as a `\u{..}` escape; with
/// `use_surrogate_pairs`, a character from U+10000 to U+10FFFF
/// is written as the escapes of its UTF-16 surrogate pair.
pub fn escape_non_ascii_chars(regex: &str, use_surrogate_pairs: bool) -> (s: String)
    ensures
        s@ == escape_all(regex@, use_surrogate_pairs),
{
    let chars = to_chars(regex);
    let mut out: Vec<char> = Vec::new();
    push_escaped(&mut out, chars.as_slice(), use_surrogate_pairs);
    assert(out@ =~= escape_all(regex@, use_surrogate_pairs));
    from_chars(out.as_slice())
}

/// The `\u{..}` escapes of the UTF-16 code units of a character.
pub fn convert_to_surrogate_pair(c: char) -> (s: String)
    ensures
        s@ == surrogate_escape(c),
{
    let mut out: Vec<char> = Vec::new();
    push_surrogate_escape(&mut out, c);
    assert(out@ =~= surrogate_escape(c));
    from_chars(out.as_slice())
}

} // verus!
