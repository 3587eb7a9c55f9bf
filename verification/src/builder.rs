//! The builder that gathers the test cases and the settings for generating a
//! regular expression.
use crate::ast::strings_view;
use crate::regexp::config::RegExpConfig;
use vstd::prelude::*;

verus! {

/// The message of the refusal to build without test cases.
pub const MISSING_TEST_CASES_MESSAGE: &'static str =
    "No test cases have been provided for regular expression generation";

/// The message of the refusal of a minimum quantity of repetitions of zero.
pub const MINIMUM_REPETITIONS_MESSAGE: &'static str =
    "Quantity of minimum repetitions must be greater than zero";

/// The message of the refusal of a minimum substring length of zero.
pub const MINIMUM_SUBSTRING_LENGTH_MESSAGE: &'static str =
    "Minimum substring length must be greater than zero";

/// The test cases to build a regular expression from, and the settings to build it with.
pub struct RegExpBuilder {
    pub test_cases: Vec<String>,
    pub config: RegExpConfig,
}

/// The default settings.
pub open spec fn default_config(c: RegExpConfig) -> bool {
    &&& c.minimum_repetitions == 1
    &&& c.minimum_substring_length == 1
    &&& !c.is_digit_converted
    &&& !c.is_non_digit_converted
    &&& !c.is_space_converted
    &&& !c.is_non_space_converted
    &&& !c.is_word_converted
    &&& !c.is_non_word_converted
    &&& !c.is_repetition_converted
    &&& !c.is_case_insensitive_matching
    &&& !c.is_capturing_group_enabled
    &&& !c.is_non_ascii_char_escaped
    &&& !c.is_astral_code_point_converted_to_surrogate
    &&& !c.is_verbose_mode_enabled
    &&& !c.is_start_anchor_disabled
    &&& !c.is_end_anchor_disabled
    &&& !c.is_output_colorized
}

impl RegExpBuilder {
    /// A builder for the given test cases, with the default settings. The test
    /// cases need not be sorted; there must be one at least.
    pub fn from(test_cases: &[String]) -> (b: Self)
        requires
            test_cases@.len() > 0,
        ensures
            strings_view(b.test_cases@) == strings_view(test_cases@),
            default_config(b.config),
    {
        let mut cases: Vec<String> = Vec::new();
        let mut i: usize = 0;
        while i < test_cases.len()
            invariant
                i <= test_cases@.len(),
                strings_view(cases@) == strings_view(test_cases@.take(i as int)),
            decreases test_cases.len() - i,
        {
            let s = test_cases[i].clone();
            proof {
                assert(strings_view(test_cases@.take(i + 1)) =~= strings_view(
                    test_cases@.take(i as int),
                ).push(s@));
                assert(strings_view(cases@.push(s)) =~= strings_view(cases@).push(s@));
            }
            cases.push(s);
            i = i + 1;
        }
        assert(test_cases@.take(test_cases@.len() as int) =~= test_cases@);
        RegExpBuilder { test_cases: cases, config: RegExpConfig::new() }
    }

    /// Converts any Unicode decimal digit to the character class `\d`.
    pub fn with_conversion_of_digits(&mut self) -> (b: &mut Self)
        ensures
            *b == (RegExpBuilder {
                config: RegExpConfig { is_digit_converted: true, ..old(self).config },
                ..*old(self)
            }),
            *final(self) == *final(b),
    {
        self.config.is_digit_converted = true;
        self
    }

    /// Converts any character that is not a Unicode decimal digit to the character class `\D`.
    pub fn with_conversion_of_non_digits(&mut self) -> (b: &mut Self)
        ensures
            *b == (RegExpBuilder {
                config: RegExpConfig { is_non_digit_converted: true, ..old(self).config },
                ..*old(self)
            }),
            *final(self) == *final(b),
    {
        self.config.is_non_digit_converted = true;
        self
    }

    /// Converts any Unicode whitespace character to the character class `\s`.
    pub fn with_conversion_of_whitespace(&mut self) -> (b: &mut Self)
        ensures
            *b == (RegExpBuilder {
                config: RegExpConfig { is_space_converted: true, ..old(self).config },
                ..*old(self)
            }),
            *final(self) == *final(b),
    {
        self.config.is_space_converted = true;
        self
    }

    /// Converts any character that is not Unicode whitespace to the character class `\S`.
    pub fn with_conversion_of_non_whitespace(&mut self) -> (b: &mut Self)
        ensures
            *b == (RegExpBuilder {
                config: RegExpConfig { is_non_space_converted: true, ..old(self).config },
                ..*old(self)
            }),
            *final(self) == *final(b),
    {
        self.config.is_non_space_converted = true;
        self
    }

    /// Converts any Unicode word character to the character class `\w`.
    pub fn with_conversion_of_words(&mut self) -> (b: &mut Self)
        ensures
            *b == (RegExpBuilder {
                config: RegExpConfig { is_word_converted: true, ..old(self).config },
                ..*old(self)
            }),
            *final(self) == *final(b),
    {
        self.config.is_word_converted = true;
        self
    }

    /// Converts any character that is not a Unicode word character to the character class `\W`.
    pub fn with_conversion_of_non_words(&mut self) -> (b: &mut Self)
        ensures
            *b == (RegExpBuilder {
                config: RegExpConfig { is_non_word_converted: true, ..old(self).config },
                ..*old(self)
            }),
            *final(self) == *final(b),
    {
        self.config.is_non_word_converted = true;
        self
    }

    /// Detects repeated non-overlapping substrings and converts them to `{min,max}` quantifier notation.
    pub fn with_conversion_of_repetitions(&mut self) -> (b: &mut Self)
        ensures
            *b == (RegExpBuilder {
                config: RegExpConfig { is_repetition_converted: true, ..old(self).config },
                ..*old(self)
            }),
            *final(self) == *final(b),
    {
        self.config.is_repetition_converted = true;
        self
    }

    /// Lets the expression match letters in upper and lower case alike.
    pub fn with_case_insensitive_matching(&mut self) -> (b: &mut Self)
        ensures
            *b == (RegExpBuilder {
                config: RegExpConfig { is_case_insensitive_matching: true, ..old(self).config },
                ..*old(self)
            }),
            *final(self) == *final(b),
    {
        self.config.is_case_insensitive_matching = true;
        self
    }

    /// Uses capturing groups in place of non-capturing ones.
    pub fn with_capturing_groups(&mut self) -> (b: &mut Self)
        ensures
            *b == (RegExpBuilder {
                config: RegExpConfig { is_capturing_group_enabled: true, ..old(self).config },
                ..*old(self)
            }),
            *final(self) == *final(b),
    {
        self.config.is_capturing_group_enabled = true;
        self
    }

    /// Lays the expression out in verbose mode.
    pub fn with_verbose_mode(&mut self) -> (b: &mut Self)
        ensures
            *b == (RegExpBuilder {
                config: RegExpConfig { is_verbose_mode_enabled: true, ..old(self).config },
                ..*old(self)
            }),
            *final(self) == *final(b),
    {
        self.config.is_verbose_mode_enabled = true;
        self
    }

    /// Leaves out the caret anchor `^`.
    pub fn without_start_anchor(&mut self) -> (b: &mut Self)
        ensures
            *b == (RegExpBuilder {
                config: RegExpConfig { is_start_anchor_disabled: true, ..old(self).config },
                ..*old(self)
            }),
            *final(self) == *final(b),
    {
        self.config.is_start_anchor_disabled = true;
        self
    }

    /// Leaves out the dollar sign anchor `$`.
    pub fn without_end_anchor(&mut self) -> (b: &mut Self)
        ensures
            *b == (RegExpBuilder {
                config: RegExpConfig { is_end_anchor_disabled: true, ..old(self).config },
                ..*old(self)
            }),
            *final(self) == *final(b),
    {
        self.config.is_end_anchor_disabled = true;
        self
    }

    /// Highlights the syntax of the expression.
    pub fn with_syntax_highlighting(&mut self) -> (b: &mut Self)
        ensures
            *b == (RegExpBuilder {
                config: RegExpConfig { is_output_colorized: true, ..old(self).config },
                ..*old(self)
            }),
            *final(self) == *final(b),
    {
        self.config.is_output_colorized = true;
        self
    }

    /// Leaves out both anchors, `^` and `$`.
    pub fn without_anchors(&mut self) -> (b: &mut Self)
        ensures
            *b == (RegExpBuilder {
                config: RegExpConfig {
                    is_start_anchor_disabled: true,
                    is_end_anchor_disabled: true,
                    ..old(self).config
                },
                ..*old(self)
            }),
            *final(self) == *final(b),
    {
        self.config.is_start_anchor_disabled = true;
        self.config.is_end_anchor_disabled = true;
        self
    }

    /// Replaces every non-ASCII character by its Unicode escape sequence; characters
    /// beyond the Basic Multilingual Plane by a surrogate pair where `use_surrogate_pairs`.
    pub fn with_escaping_of_non_ascii_chars(&mut self, use_surrogate_pairs: bool) -> (b: &mut Self)
        ensures
            *b == (RegExpBuilder {
                config: RegExpConfig {
                    is_non_ascii_char_escaped: true,
                    is_astral_code_point_converted_to_surrogate: use_surrogate_pairs,
                    ..old(self).config
                },
                ..*old(self)
            }),
            *final(self) == *final(b),
    {
        self.config.is_non_ascii_char_escaped = true;
        self.config.is_astral_code_point_converted_to_surrogate = use_surrogate_pairs;
        self
    }

    /// Converts only substrings that repeat at least `quantity` times more; the
    /// quantity must be greater than zero.
    pub fn with_minimum_repetitions(&mut self, quantity: u32) -> (b: &mut Self)
        requires
            quantity > 0,
        ensures
            *b == (RegExpBuilder {
                config: RegExpConfig { minimum_repetitions: quantity, ..old(self).config },
                ..*old(self)
            }),
            *final(self) == *final(b),
    {
        self.config.minimum_repetitions = quantity;
        self
    }

    /// Converts only repeated substrings of at least `length` graphemes; the length
    /// must be greater than zero.
    pub fn with_minimum_substring_length(&mut self, length: u32) -> (b: &mut Self)
        requires
            length > 0,
        ensures
            *b == (RegExpBuilder {
                config: RegExpConfig { minimum_substring_length: length, ..old(self).config },
                ..*old(self)
            }),
            *final(self) == *final(b),
    {
        self.config.minimum_substring_length = length;
        self
    }
}

} // verus!
