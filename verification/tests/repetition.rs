use grex::grapheme::Grapheme;
use grex::regexp::config::RegExpConfig;
use grex::repetition::{
    collect_ranges, conflate_repetitions, convert_graphemes, convert_ranges, get_z,
    grapheme_ids, same_grapheme, z_function,
};

fn graphemes_of(s: &str, config: &RegExpConfig) -> Vec<Grapheme> {
    s.chars()
        .map(|c| Grapheme::from(&c.to_string(), config))
        .collect()
}

fn shown(gs: &[Grapheme]) -> Vec<String> {
    gs.iter().map(|g| g.to_string()).collect()
}

fn written_out(gs: &[Grapheme]) -> String {
    gs.iter()
        .map(|g| g.value().repeat(g.minimum() as usize))
        .collect()
}

#[test]
fn z_function_of_repeated_pattern() {
    assert_eq!(z_function(&[1, 2, 1, 2, 1]), vec![0, 0, 3, 0, 1]);
    assert_eq!(z_function(&[7, 7, 7]), vec![0, 2, 1]);
    assert_eq!(z_function(&[]), Vec::<usize>::new());
}

#[test]
fn get_z_beyond_the_end_is_zero() {
    let z = vec![0, 2, 1];
    assert_eq!(get_z(&z, 1), 2);
    assert_eq!(get_z(&z, 3), 0);
}

#[test]
fn equal_graphemes_get_equal_numbers() {
    let config = RegExpConfig::new();
    let gs = graphemes_of("abcab", &config);
    assert_eq!(grapheme_ids(&gs), vec![0, 1, 2, 0, 1]);
    assert!(same_grapheme(&gs[0], &gs[3]));
    assert!(!same_grapheme(&gs[0], &gs[1]));
}

#[test]
fn squares_are_collected_sorted() {
    let mut ranges = Vec::new();
    collect_ranges(&mut ranges, &[0, 0, 0, 3, 0], 0);
    assert_eq!(ranges, vec![0..2, 1..3]);

    let mut none = Vec::new();
    collect_ranges(&mut none, &[0, 1, 2], 0);
    assert!(none.is_empty());
}

#[test]
fn ranges_are_cut_at_the_squares() {
    let config = RegExpConfig::new();
    let gs = graphemes_of("aaaba", &config);
    let ranges = convert_ranges(&vec![0..2, 1..3], &gs);
    assert_eq!(ranges, vec![0..1, 1..2, 2..3, 3..5]);
}

#[test]
fn equal_neighbouring_parts_are_gathered() {
    let config = RegExpConfig::new();
    let gs = graphemes_of("aaaba", &config);
    let out = convert_graphemes(&gs, &vec![0..1, 1..2, 2..3, 3..5], &config);
    assert_eq!(out.len(), 2);
    assert_eq!(out[0].value(), "a");
    assert_eq!((out[0].minimum(), out[0].maximum()), (3, 3));
    assert_eq!(out[1].value(), "ba");
    assert_eq!((out[1].minimum(), out[1].maximum()), (1, 1));
}

#[test]
fn conflation_of_a_run() {
    let config = RegExpConfig::new();
    let gs = graphemes_of("aaaba", &config);
    let out = conflate_repetitions(&gs, &config);
    assert_eq!(shown(&out), vec!["a{3}", "ba"]);
    assert_eq!(written_out(&out), "aaaba");
}

#[test]
fn conflation_of_a_pair() {
    let config = RegExpConfig::new();
    let gs = graphemes_of("aa", &config);
    let out = conflate_repetitions(&gs, &config);
    assert_eq!(shown(&out), vec!["a{2}"]);
}

#[test]
fn conflation_without_squares_keeps_the_graphemes() {
    let config = RegExpConfig::new();
    let gs = graphemes_of("abc", &config);
    let out = conflate_repetitions(&gs, &config);
    assert_eq!(shown(&out), vec!["a", "b", "c"]);
    assert_eq!(written_out(&out), "abc");
}

#[test]
fn conflation_keeps_the_text() {
    let config = RegExpConfig::new();
    for input in ["abcabcbczabab", "zabababcdd", "xyxyxyz", "a", "abba"] {
        let gs = graphemes_of(input, &config);
        let out = conflate_repetitions(&gs, &config);
        assert_eq!(written_out(&out), input, "text of {}", input);
    }
}
