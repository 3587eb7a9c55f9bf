use grex::cluster::GraphemeCluster;
use grex::dfa::DFA;
use grex::regexp::config::RegExpConfig;

fn clusters(v: &[&str]) -> Vec<GraphemeCluster> {
    let config = RegExpConfig::new();
    v.iter().map(|s| GraphemeCluster::from(s, &config)).collect()
}

fn follow(dfa: &DFA, word: &[&str]) -> Option<usize> {
    let mut state = dfa.initial_state();
    for g in word {
        let next = dfa
            .outgoing_edges(state)
            .into_iter()
            .find(|(label, _)| label == g)
            .map(|(_, target)| target);
        match next {
            Some(t) => state = t,
            None => return None,
        }
    }
    Some(state)
}

fn accepts(dfa: &DFA, word: &[&str]) -> bool {
    match follow(dfa, word) {
        Some(s) => dfa.is_final_state(s),
        None => false,
    }
}

#[test]
fn dfa_of_one_word_is_a_path() {
    let dfa = DFA::from(&clusters(&["abcd"]));
    assert_eq!(dfa.state_count(), 5);
    assert!(accepts(&dfa, &["a", "b", "c", "d"]));
    assert!(!accepts(&dfa, &["a", "b", "c"]));
    assert!(!dfa.is_final_state(dfa.initial_state()));
}

#[test]
fn dfa_merges_common_prefixes_and_suffixes() {
    let dfa = DFA::from(&clusters(&["abcd", "abxd"]));
    assert_eq!(dfa.state_count(), 5);
    assert_eq!(dfa.transition_count(), 5);
    let after_ab = follow(&dfa, &["a", "b"]).unwrap();
    let mut labels: Vec<String> = dfa.outgoing_edges(after_ab).into_iter().map(|(l, _)| l).collect();
    labels.sort();
    assert_eq!(labels, vec!["c".to_string(), "x".to_string()]);
    assert!(accepts(&dfa, &["a", "b", "c", "d"]));
    assert!(accepts(&dfa, &["a", "b", "x", "d"]));
    assert!(!accepts(&dfa, &["a", "b", "x"]));
}

#[test]
fn dfa_accepts_exactly_the_test_cases() {
    let dfa = DFA::from(&clusters(&["a", "ab", "a", "I ♥ cake"]));
    assert!(accepts(&dfa, &["a"]));
    assert!(accepts(&dfa, &["a", "b"]));
    assert!(accepts(&dfa, &["I", " ", "♥", " ", "c", "a", "k", "e"]));
    assert!(!accepts(&dfa, &[]));
    assert!(!accepts(&dfa, &["b"]));
    assert_eq!(dfa.state_count(), 10);
}

#[test]
fn dfa_of_empty_test_case_accepts_the_empty_word() {
    let dfa = DFA::from(&clusters(&[""]));
    assert_eq!(dfa.state_count(), 1);
    assert!(dfa.is_final_state(dfa.initial_state()));
}

#[test]
fn removing_dead_ends_keeps_what_is_accepted() {
    let mut dfa = DFA::from(&clusters(&["abcd", "abxd", "a"]));
    assert_eq!(dfa.state_count(), 5);
    dfa.remove_dead_ends();
    assert_eq!(dfa.state_count(), 5);
    assert!(accepts(&dfa, &["a", "b", "c", "d"]));
    assert!(accepts(&dfa, &["a", "b", "x", "d"]));
    assert!(accepts(&dfa, &["a"]));
    assert!(!accepts(&dfa, &["a", "b"]));
}

#[test]
fn minimizing_again_changes_nothing() {
    let mut dfa = DFA::from(&clusters(&["ab", "cb", "abab"]));
    let states = dfa.state_count();
    let transitions = dfa.transition_count();
    dfa.minimize();
    assert_eq!(dfa.state_count(), states);
    assert_eq!(dfa.transition_count(), transitions);
    assert!(accepts(&dfa, &["a", "b"]));
    assert!(accepts(&dfa, &["c", "b"]));
    assert!(accepts(&dfa, &["a", "b", "a", "b"]));
    assert!(!accepts(&dfa, &["c", "b", "a", "b"]));
    assert!(!accepts(&dfa, &["a", "b", "a"]));
}

#[test]
fn subtraction_keeps_what_only_the_first_accepts() {
    let dfa1 = DFA::from(&clusters(&["abcd", "abcf"]));
    let dfa2 = DFA::from(&clusters(&["abcd"]));
    let dfa = dfa1.subtract(&dfa2).unwrap();
    assert_eq!(dfa.state_count(), 5);
    assert!(accepts(&dfa, &["a", "b", "c", "f"]));
    assert!(!accepts(&dfa, &["a", "b", "c", "d"]));
}

#[test]
fn subtraction_of_itself_accepts_nothing() {
    let dfa1 = DFA::from(&clusters(&["ab", "cd", "e"]));
    let dfa2 = DFA::from(&clusters(&["cd", "ab", "e"]));
    let dfa = dfa1.subtract(&dfa2).unwrap();
    assert!(!accepts(&dfa, &["a", "b"]));
    assert!(!accepts(&dfa, &["c", "d"]));
    assert!(!accepts(&dfa, &["e"]));
    let rest = dfa2.subtract(&DFA::from(&clusters(&["x"]))).unwrap();
    assert!(accepts(&rest, &["a", "b"]));
    assert!(accepts(&rest, &["e"]));
    assert!(!accepts(&rest, &["x"]));
}
