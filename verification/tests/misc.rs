use grex::colorizable::ColorizableString;
use grex::format::{format_character_class, get_codepoint_position};
use grex::options::repetition_options_parser;
use grex::cluster::GraphemeCluster;
use grex::regexp::config::RegExpConfig;
use grex::suffixtable::SuffixTable;

#[test]
fn character_classes() {
    assert_eq!(format_character_class(&['a', 'b', 'c', 'x'], false), "[a-cx]");
    assert_eq!(format_character_class(&['a', 'b', 'x', 'y'], false), "[abxy]");
    assert_eq!(format_character_class(&['-', '.', '/', '0'], false), "[\\--0]");
    assert_eq!(format_character_class(&['\u{d7ff}', '\u{e000}', '\u{e001}'], false), "[\u{d7ff}-\u{e001}]");
    assert_eq!(
        format_character_class(&['a', 'b', 'c'], true),
        "\u{1b}[1;36m[\u{1b}[0ma\u{1b}[1;36m-\u{1b}[0mc\u{1b}[1;36m]\u{1b}[0m"
    );
}

#[test]
fn character_class_of_one_character_is_empty() {
    assert_eq!(format_character_class(&['a'], false), "[]");
}

#[test]
fn codepoint_positions() {
    assert_eq!(get_codepoint_position('\0'), 0);
    assert_eq!(get_codepoint_position('a'), 97);
    assert_eq!(get_codepoint_position('\u{e000}'), 0xd800);
    assert_eq!(get_codepoint_position('\u{10ffff}'), 0x10f7ff);
}

#[test]
fn option_values() {
    assert_eq!(repetition_options_parser("3"), Ok(3));
    assert_eq!(repetition_options_parser("+7"), Ok(7));
    assert_eq!(repetition_options_parser("0"), Err("Value must not be zero".to_string()));
    assert_eq!(
        repetition_options_parser("-1"),
        Err("Value is not a valid unsigned integer".to_string())
    );
    assert_eq!(
        repetition_options_parser("4294967296"),
        Err("Value is not a valid unsigned integer".to_string())
    );
    assert_eq!(
        repetition_options_parser(""),
        Err("Value is not a valid unsigned integer".to_string())
    );
    assert_eq!(repetition_options_parser("4294967295"), Ok(4294967295));
    assert_eq!(repetition_options_parser("007"), Ok(7));
    for bad in ["+", "++1", "1+", " 1", "99999999999999999999"] {
        assert_eq!(
            repetition_options_parser(bad),
            Err("Value is not a valid unsigned integer".to_string())
        );
    }
}

#[test]
fn colorizable_strings() {
    assert!(matches!(ColorizableString::from("\\d"), ColorizableString::DigitCharClass));
    assert!(matches!(ColorizableString::from("\\W"), ColorizableString::NonWordCharClass));
    assert!(matches!(ColorizableString::from("ab"), ColorizableString::Other(_)));
    assert_eq!(ColorizableString::Number(42).to_string(), "42");
    assert_eq!(ColorizableString::NonCapturingLeftParenthesis.to_string(), "(?:");
    assert_eq!(ColorizableString::Pipe.to_colorized_string(false), "|");
}

#[test]
fn suffix_table() {
    let config = RegExpConfig::new();
    let cluster = GraphemeCluster::from("banana", &config);
    let table = SuffixTable::from(&cluster);
    assert_eq!(table.suffix_indices, vec![5, 3, 1, 0, 4, 2]);
    assert_eq!(table.suffix_lengths, vec![1, 3, 5, 6, 2, 4]);
    assert_eq!(table.longest_common_prefix_lengths, vec![0, 1, 3, 0, 0, 2]);
}

#[test]
fn suffix_table_rows() {
    let config = RegExpConfig::new();
    let cluster = GraphemeCluster::from("abab", &config);
    let table = SuffixTable::from(&cluster);
    assert_eq!(
        table.rows(),
        vec![
            "2   | 0   | 2   | ab",
            "0   | 2   | 4   | abab",
            "3   | 0   | 1   | b",
            "1   | 1   | 3   | bab",
        ]
    );
}

#[test]
fn whitespace_is_unicode_white_space() {
    for code in 0u32..=0x10ffff {
        if let Some(c) = char::from_u32(code) {
            assert_eq!(grex::cluster::is_space(c), c.is_whitespace(), "{:?}", c);
        }
    }
}
