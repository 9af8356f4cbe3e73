use binmatch::{Pattern, PatternElement};

#[test]
fn find_matches_reports_the_captured_byte() {
    let pattern = Pattern::new("00 __ 00 ??").unwrap();
    let data = vec![0x12, 0x13, 0x00, 0x14, 0x00, 0x42, 0x15];
    assert_eq!(pattern.find_matches(data), vec![0x42]);
}

#[test]
fn find_matches_in_a_longer_haystack() {
    let pattern = Pattern::new("00 __ 00 ??").unwrap();
    let data = vec![0xFF, 0x12, 0x34, 0x00, 0x32, 0x00, 0x42, 0x56, 0x78];
    assert_eq!(pattern.find_matches(data), vec![0x42]);
}

#[test]
fn find_matches_with_index_reports_the_offset() {
    let pattern = Pattern::new("34 __ 00 ??").unwrap();
    let data = vec![0xFF, 0x12, 0x34, 0x12, 0x00, 0x42, 0x56, 0x78];
    assert_eq!(pattern.find_matches_with_index(data), vec![(0x42, 5)]);
}

#[test]
fn has_match_without_placeholders() {
    let pattern = Pattern::new("00 __ 00 __").unwrap();
    let data = vec![0xFF, 0x12, 0x34, 0x00, 0x32, 0x00, 0x42, 0x56, 0x78];
    assert!(pattern.has_match(data.clone()));
    assert_eq!(pattern.find_matches_with_index(data), vec![]);
}

#[test]
fn has_match_is_false_without_a_matching_window() {
    let pattern = Pattern::new("00 __ 01").unwrap();
    assert!(!pattern.has_match(vec![0x00, 0x01, 0x00, 0x00, 0x02, 0x02, 0x01]));
    assert!(pattern.has_match(vec![0x00, 0x01, 0x00, 0x00, 0x02, 0x01]));
}

#[test]
fn match_chunk_reports_local_offsets() {
    let pattern = Pattern::new("00 __ 00 ??").unwrap();
    let (matches, matched) = pattern.match_chunk(vec![0x00, 0x32, 0x00, 0x42]);
    assert_eq!(matches, vec![(0x42, 3)]);
    assert!(matched);
}

#[test]
fn match_chunk_discards_captures_on_a_mismatch() {
    let pattern = Pattern::new("?? ?? 00 ??").unwrap();
    let (matches, matched) = pattern.match_chunk(vec![0x01, 0x02, 0x03, 0x04]);
    assert_eq!(matches, vec![]);
    assert!(!matched);
    let (matches, matched) = pattern.match_chunk(vec![0x01, 0x02, 0x00, 0x04]);
    assert_eq!(matches, vec![(0x01, 0), (0x02, 1), (0x04, 3)]);
    assert!(matched);
}

#[test]
fn match_chunk_of_the_empty_pattern() {
    let pattern = Pattern::new("").unwrap();
    assert_eq!(pattern.match_chunk(vec![]), (vec![], true));
}

#[test]
fn short_haystack_has_no_window() {
    let pattern = Pattern::new("?? ?? ??").unwrap();
    assert_eq!(pattern.find_matches_with_index(vec![0x01, 0x02]), vec![]);
    assert_eq!(pattern.find_matches(vec![0x01, 0x02]), Vec::<u8>::new());
    assert!(!pattern.has_match(vec![0x01, 0x02]));
    assert_eq!(pattern.find_matches_with_index(vec![]), vec![]);
    assert!(!pattern.has_match(vec![]));
}

#[test]
fn haystack_as_long_as_the_pattern_has_one_window() {
    let pattern = Pattern::new("?? 02 ??").unwrap();
    assert_eq!(
        pattern.find_matches_with_index(vec![0x01, 0x02, 0x03]),
        vec![(0x01, 0), (0x03, 2)]
    );
    assert!(pattern.has_match(vec![0x01, 0x02, 0x03]));
    assert!(!pattern.has_match(vec![0x01, 0x03, 0x03]));
}

#[test]
fn overlapping_windows_are_all_reported() {
    let pattern = Pattern::new("00 ??").unwrap();
    assert_eq!(
        pattern.find_matches_with_index(vec![0x00, 0x00, 0x00, 0x05]),
        vec![(0x00, 1), (0x00, 2), (0x05, 3)]
    );
    assert_eq!(
        pattern.find_matches(vec![0x00, 0x00, 0x00, 0x05]),
        vec![0x00, 0x00, 0x05]
    );
}

#[test]
fn overlapping_windows_report_window_by_window() {
    let pattern = Pattern::new("?? AA ??").unwrap();
    assert_eq!(
        pattern.find_matches_with_index(vec![0x01, 0xAA, 0xAA, 0xAA, 0x02]),
        vec![(0x01, 0), (0xAA, 2), (0xAA, 1), (0xAA, 3), (0xAA, 2), (0x02, 4)]
    );
}

#[test]
fn scanning_twice_gives_the_same() {
    let pattern = Pattern::new("?? 00 __ ??").unwrap();
    let data = vec![0x07, 0x00, 0x01, 0x00, 0x02, 0x09, 0x00, 0x00, 0x00];
    let first = pattern.find_matches_with_index(data.clone());
    let second = pattern.find_matches_with_index(data.clone());
    assert_eq!(first, second);
    assert_eq!(
        first,
        vec![(0x07, 0), (0x00, 3), (0x01, 2), (0x09, 5), (0x09, 5), (0x00, 8)]
    );
    assert_eq!(pattern.find_matches(data.clone()), pattern.find_matches(data.clone()));
    assert_eq!(pattern.has_match(data.clone()), pattern.has_match(data.clone()));
    assert_eq!(
        pattern.clone().find_matches_with_index(data.clone()),
        first
    );
}

#[test]
fn empty_pattern_matches_everywhere_and_captures_nothing() {
    let pattern = Pattern::new("").unwrap();
    assert_eq!(pattern.find_matches_with_index(vec![1, 2, 3]), vec![]);
    assert_eq!(pattern.find_matches(vec![1, 2, 3]), Vec::<u8>::new());
    assert!(pattern.has_match(vec![1, 2, 3]));
    assert!(pattern.has_match(vec![]));
    assert_eq!(Pattern::default().find_matches_with_index(vec![9]), vec![]);
}

#[test]
fn literal_only_pattern_finds_without_capturing() {
    let pattern = Pattern::new("DE AD BE EF").unwrap();
    assert_eq!(
        pattern.elements(),
        &vec![
            PatternElement::Literal(0xDE),
            PatternElement::Literal(0xAD),
            PatternElement::Literal(0xBE),
            PatternElement::Literal(0xEF),
        ]
    );
    assert!(pattern.has_match(vec![0x00, 0xDE, 0xAD, 0xBE, 0xEF]));
    assert!(!pattern.has_match(vec![0xDE, 0xAD, 0xBE, 0xEE, 0xEF]));
    assert_eq!(pattern.find_matches(vec![0x00, 0xDE, 0xAD, 0xBE, 0xEF]), Vec::<u8>::new());
}

#[test]
fn unchecked_pattern_scans_like_the_checked_one() {
    let pattern = Pattern::new_unchecked("00 __ 00 ??");
    let data = vec![0x12, 0x13, 0x00, 0x14, 0x00, 0x42, 0x15];
    assert_eq!(pattern.find_matches_with_index(data), vec![(0x42, 5)]);
}
