use grex::cluster::GraphemeCluster;
use grex::grapheme::Grapheme;
use grex::regexp::config::RegExpConfig;

fn texts(cluster: &GraphemeCluster) -> Vec<String> {
    cluster.graphemes().iter().map(|g| g.to_string()).collect()
}

#[test]
fn cluster_of_plain_text() {
    let config = RegExpConfig::new();
    let cluster = GraphemeCluster::from("abc", &config);
    assert_eq!(cluster.size(), 3);
    assert_eq!(texts(&cluster), vec!["a", "b", "c"]);
    assert_eq!(cluster.char_count(false), 3);
}

#[test]
fn backslash_pairs_are_split() {
    let config = RegExpConfig::new();
    let cluster = GraphemeCluster::from("a\\b", &config);
    assert_eq!(cluster.size(), 3);
}

#[test]
fn combining_marks_are_split() {
    let config = RegExpConfig::new();
    let cluster = GraphemeCluster::from("e\u{301}x", &config);
    assert_eq!(cluster.size(), 3);
}

#[test]
fn repeated_single_grapheme() {
    let mut config = RegExpConfig::new();
    config.is_repetition_converted = true;
    let mut cluster = GraphemeCluster::from("aaa", &config);
    cluster.convert_repetitions();
    assert_eq!(texts(&cluster), vec!["a{3}"]);
}

#[test]
fn repeated_substring() {
    let mut config = RegExpConfig::new();
    config.is_repetition_converted = true;
    let mut cluster = GraphemeCluster::from("abab", &config);
    cluster.convert_repetitions();
    assert_eq!(texts(&cluster), vec!["(?:ab){2}"]);
}

#[test]
fn repeated_substring_with_capturing_group() {
    let mut config = RegExpConfig::new();
    config.is_repetition_converted = true;
    config.is_capturing_group_enabled = true;
    let mut cluster = GraphemeCluster::from("xababy", &config);
    cluster.convert_repetitions();
    assert_eq!(texts(&cluster), vec!["x", "(ab){2}", "y"]);
}

#[test]
fn nothing_repeats() {
    let config = RegExpConfig::new();
    let mut cluster = GraphemeCluster::from("abc", &config);
    cluster.convert_repetitions();
    assert_eq!(texts(&cluster), vec!["a", "b", "c"]);
}

#[test]
fn minimum_repetitions_is_respected() {
    let mut config = RegExpConfig::new();
    config.minimum_repetitions = 2;
    let mut cluster = GraphemeCluster::from("aab", &config);
    cluster.convert_repetitions();
    assert_eq!(texts(&cluster), vec!["a", "a", "b"]);
    let mut cluster = GraphemeCluster::from("aaab", &config);
    cluster.convert_repetitions();
    assert_eq!(texts(&cluster), vec!["a{3}", "b"]);
}

#[test]
fn char_classes() {
    let mut config = RegExpConfig::new();
    config.is_digit_converted = true;
    config.is_word_converted = true;
    let mut cluster = GraphemeCluster::from("a1 ", &config);
    cluster.convert_to_char_classes();
    assert_eq!(texts(&cluster), vec!["\\w", "\\d", " "]);
}

#[test]
fn non_char_classes() {
    let mut config = RegExpConfig::new();
    config.is_non_digit_converted = true;
    config.is_space_converted = true;
    let mut cluster = GraphemeCluster::from("a1 ", &config);
    cluster.convert_to_char_classes();
    assert_eq!(texts(&cluster), vec!["\\D", "1", "\\s"]);
}

#[test]
fn grapheme_repetition_texts() {
    let config = RegExpConfig::new();
    let g = Grapheme::new(vec!["a".to_string()], 2, 5, &config);
    assert_eq!(g.to_string(), "a{2,5}");
    let g = Grapheme::new(vec!["a".to_string(), "b".to_string()], 2, 5, &config);
    assert_eq!(g.to_string(), "(?:ab){2,5}");
    let g = Grapheme::new(vec!["\\d".to_string()], 3, 3, &config);
    assert_eq!(g.to_string(), "\\d{3}");
    let g = Grapheme::from("x", &config);
    assert_eq!(g.to_string(), "x");
}

#[test]
fn grapheme_escaping() {
    let config = RegExpConfig::new();
    let mut g = Grapheme::new(vec!["(".to_string(), "\\".to_string(), "♥".to_string()], 1, 1, &config);
    g.escape_regexp_symbols(true, false);
    assert_eq!(g.chars(), &vec!["\\(".to_string(), "\\\\".to_string(), "\\u{2665}".to_string()]);
    assert_eq!(g.char_count(false), 12);
    let g = Grapheme::from("💩", &config);
    assert_eq!(g.escape('💩', true), "\\u{d83d}\\u{dca9}");
    assert_eq!(g.escape('💩', false), "\\u{1f4a9}");
    assert_eq!(g.char_count(true), 9);
    assert_eq!(g.convert_to_surrogate_pair('💩'), "\\u{d83d}\\u{dca9}");
}

#[test]
fn merged_clusters() {
    let config = RegExpConfig::new();
    let a = GraphemeCluster::from("ab", &config);
    let b = GraphemeCluster::from("c", &config);
    let m = GraphemeCluster::merge(&a, &b, &config);
    assert_eq!(texts(&m), vec!["a", "b", "c"]);
    assert!(!m.is_empty());
}

#[test]
fn converting_repetitions_keeps_the_text() {
    let mut config = RegExpConfig::new();
    config.is_repetition_converted = true;
    for input in ["abcabcabc", "aaab", "xyxyz", "abab", "hello", "a"] {
        let mut cluster = GraphemeCluster::from(input, &config);
        cluster.convert_repetitions();
        let text: String = cluster
            .graphemes()
            .iter()
            .map(|g| g.value().repeat(g.minimum() as usize))
            .collect();
        assert_eq!(text, input, "text of {}", input);
    }
}

#[test]
fn cluster_from_graphemes_keeps_them() {
    let config = RegExpConfig::new();
    let gs = vec![Grapheme::from("a", &config), Grapheme::from("bc", &config)];
    let cluster = GraphemeCluster::from_graphemes(gs, &config);
    assert_eq!(cluster.size(), 2);
    assert_eq!(texts(&cluster), vec!["a", "bc"]);
}

#[test]
fn converting_repetitions_twice() {
    let mut config = RegExpConfig::new();
    config.is_repetition_converted = true;
    let mut cluster = GraphemeCluster::from("abab", &config);
    cluster.convert_repetitions();
    let once = texts(&cluster);
    cluster.convert_repetitions();
    assert_eq!(texts(&cluster), once);
}

#[test]
fn graphemes_changed_in_place() {
    let config = RegExpConfig::new();
    let mut g = Grapheme::from("a", &config);
    g.chars_mut().push("b".to_string());
    assert_eq!(g.value(), "ab");
    g.repetitions_mut().push(Grapheme::from("c", &config));
    assert!(g.has_repetitions());

    let mut cluster = GraphemeCluster::from("xy", &config);
    cluster.graphemes_mut().pop();
    assert_eq!(texts(&cluster), vec!["x"]);
}
