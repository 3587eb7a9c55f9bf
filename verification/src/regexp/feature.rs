//! The conversion features that a generator can be asked for.
use vstd::prelude::*;

verus! {

/// A conversion feature.
#[derive(Clone, Copy, Debug, Hash, PartialEq, Eq, Structural)]
pub enum Feature {
    /// Converts any Unicode decimal digit to the character class `\d`.
    Digit,
    /// Converts any character that is not a Unicode decimal digit to `\D`.
    NonDigit,
    /// Converts any Unicode whitespace character to `\s`.
    Space,
    /// Converts any character that is not Unicode whitespace to `\S`.
    NonSpace,
    /// Converts any Unicode word character to `\w`.
    Word,
    /// Converts any character that is not a Unicode word character to `\W`.
    NonWord,
    /// Detects repeated non-overlapping substrings and writes them with `{min,max}`
    /// quantifiers.
    Repetition,
    /// Lets letters match both their upper and lower case.
    CaseInsensitivity,
    /// Replaces non-capturing groups by capturing ones.
    CapturingGroup,
}

impl Feature {
    /// Every feature but the detection of repetitions concerns the characters or
    /// groups of the expression.
    pub fn is_char_class(&self) -> (b: bool)
        ensures
            b == !(*self is Repetition),
    {
        match self {
            Feature::Repetition => false,
            _ => true,
        }
    }
}

} // verus!
