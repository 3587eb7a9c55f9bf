use grex::char_range::CharRange;

#[test]
fn test_char_range_contains() {
    let range = CharRange::closed('a', 'z');
    assert!(range.contains('a'));
    assert!(range.contains('m'));
    assert!(range.contains('z'));
    assert!(!range.contains('A'));
    assert!(!range.contains('0'));
}

#[test]
fn test_char_range_all() {
    let mut iter = CharRange::all();
    let mut all_chars: Vec<char> = Vec::new();
    while all_chars.len() < 10 {
        match iter.next() {
            Some(c) => all_chars.push(c),
            None => break,
        }
    }
    assert_eq!(all_chars[0], '\0');
    assert_eq!(all_chars.len(), 10);
}

#[test]
fn test_char_range_all_count() {
    let mut iter = CharRange::all();
    let mut count = 0;
    while iter.next().is_some() {
        count += 1;
    }
    assert_eq!(count, 0x10F800);
}

#[test]
fn char_range_all_skips_the_surrogates() {
    let mut iter = CharRange::all();
    let mut previous = '\0';
    let mut after_gap = None;
    while let Some(c) = iter.next() {
        if previous == '\u{d7ff}' {
            after_gap = Some(c);
            break;
        }
        previous = c;
    }
    assert_eq!(after_gap, Some('\u{e000}'));
}
