use grex::postprocessing::{convert_to_surrogate_pair, escape_non_ascii_chars};

#[test]
fn test_escaping_non_ascii_chars() {
    let input = "My ♥ and 💩 is yours.";
    assert_eq!(
        escape_non_ascii_chars(input, false),
        "My \\u{2665} and \\u{1f4a9} is yours."
    );
    assert_eq!(
        escape_non_ascii_chars(input, true),
        "My \\u{2665} and \\u{d83d}\\u{dca9} is yours."
    );
}

#[test]
fn test_surrogate_pair_conversion() {
    let params = vec![
        ('💩', "\\u{d83d}\\u{dca9}"),
        ('\u{10000}', "\\u{d800}\\u{dc00}"),
        ('\u{12345}', "\\u{d808}\\u{df45}"),
        ('\u{10FFFF}', "\\u{dbff}\\u{dfff}"),
    ];
    for (c, expected_surrogate_pair) in params {
        assert_eq!(convert_to_surrogate_pair(c), expected_surrogate_pair);
    }
}

#[test]
fn ascii_text_is_left_as_it_is() {
    assert_eq!(escape_non_ascii_chars("abc(1)|$", true), "abc(1)|$");
    assert_eq!(escape_non_ascii_chars("", false), "");
}

#[test]
fn whole_astral_range_becomes_surrogate_pairs() {
    assert_eq!(escape_non_ascii_chars("\u{10FFFF}", true), "\\u{dbff}\\u{dfff}");
    assert_eq!(escape_non_ascii_chars("\u{10FFFF}", false), "\\u{10ffff}");
    assert_eq!(escape_non_ascii_chars("\u{10000}", true), "\\u{d800}\\u{dc00}");
}

#[test]
fn basic_plane_character_is_one_escape() {
    assert_eq!(convert_to_surrogate_pair('é'), "\\u{e9}");
}
