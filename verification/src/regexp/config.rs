//! The settings that govern the generation and the layout of a regular expression.
use vstd::prelude::*;

verus! {

/// The settings of the generator.
#[derive(Clone, Copy, Debug, Hash, PartialEq, Eq, Structural)]
pub struct RegExpConfig {
    pub minimum_repetitions: u32,
    pub minimum_substring_length: u32,
    pub is_digit_converted: bool,
    pub is_non_digit_converted: bool,
    pub is_space_converted: bool,
    pub is_non_space_converted: bool,
    pub is_word_converted: bool,
    pub is_non_word_converted: bool,
    pub is_repetition_converted: bool,
    pub is_case_insensitive_matching: bool,
    pub is_capturing_group_enabled: bool,
    pub is_non_ascii_char_escaped: bool,
    pub is_astral_code_point_converted_to_surrogate: bool,
    pub is_verbose_mode_enabled: bool,
    pub is_start_anchor_disabled: bool,
    pub is_end_anchor_disabled: bool,
    pub is_output_colorized: bool,
}

impl RegExpConfig {
    /// At least one setting asks for a character class or for a change of the
    /// letters or groups of the expression.
    pub open spec fn spec_is_char_class_feature_enabled(self) -> bool {
        self.is_digit_converted || self.is_non_digit_converted || self.is_space_converted
            || self.is_non_space_converted || self.is_word_converted || self.is_non_word_converted
            || self.is_case_insensitive_matching || self.is_capturing_group_enabled
    }

    /// The default settings: one repetition and substrings of one grapheme at least,
    /// every feature switched off.
    pub fn new() -> (c: Self)
        ensures
            c.minimum_repetitions == 1,
            c.minimum_substring_length == 1,
            !c.is_digit_converted,
            !c.is_non_digit_converted,
            !c.is_space_converted,
            !c.is_non_space_converted,
            !c.is_word_converted,
            !c.is_non_word_converted,
            !c.is_repetition_converted,
            !c.is_case_insensitive_matching,
            !c.is_capturing_group_enabled,
            !c.is_non_ascii_char_escaped,
            !c.is_astral_code_point_converted_to_surrogate,
            !c.is_verbose_mode_enabled,
            !c.is_start_anchor_disabled,
            !c.is_end_anchor_disabled,
            !c.is_output_colorized,
    {
        Self {
            minimum_repetitions: 1,
            minimum_substring_length: 1,
            is_digit_converted: false,
            is_non_digit_converted: false,
            is_space_converted: false,
            is_non_space_converted: false,
            is_word_converted: false,
            is_non_word_converted: false,
            is_repetition_converted: false,
            is_case_insensitive_matching: false,
            is_capturing_group_enabled: false,
            is_non_ascii_char_escaped: false,
            is_astral_code_point_converted_to_surrogate: false,
            is_verbose_mode_enabled: false,
            is_start_anchor_disabled: false,
            is_end_anchor_disabled: false,
            is_output_colorized: false,
        }
    }

    /// Whether a character-class feature, case-insensitive matching or capturing
    /// groups are asked for.
    pub fn is_char_class_feature_enabled(&self) -> (b: bool)
        ensures
            b == self.spec_is_char_class_feature_enabled(),
    {
        self.is_digit_converted || self.is_non_digit_converted || self.is_space_converted
            || self.is_non_space_converted || self.is_word_converted || self.is_non_word_converted
            || self.is_case_insensitive_matching || self.is_capturing_group_enabled
    }
}

} // verus!
