use scnr2::match_types::Match;
use scnr2::test_scanner::TestScanner;

fn texts<'a>(input: &'a str, ms: &[Match]) -> Vec<(&'a str, usize)> {
    ms.iter().map(|m| (&input[m.span.clone()], m.token_type)).collect()
}

#[test]
fn raw_string_like_delimiters_match_their_count() {
    let mut scanner = TestScanner::new();
    let input = "r##\"ab\"##";
    let ms = scanner.find_matches(input, 0);
    assert_eq!(texts(input, &ms), vec![("r##\"", 1), ("a", 99), ("b", 99), ("\"##", 2)]);
}

#[test]
fn partial_close_is_not_a_close() {
    let mut scanner = TestScanner::new();
    let input = "r##\"#\"##";
    let ms = scanner.find_matches(input, 0);
    assert_eq!(texts(input, &ms), vec![("r##\"", 1), ("#", 99), ("\"##", 2)]);
}

#[test]
fn validation_without_capture_fails() {
    let mut scanner = TestScanner::new();
    let input = "\"#";
    let ms = scanner.find_matches(input, 0);
    assert_eq!(texts(input, &ms), vec![("\"", 99), ("#", 99)]);
}

#[test]
fn state_persists_until_reset() {
    let mut scanner = TestScanner::new();
    let _ = scanner.find_matches("r#\"", 0);
    let ms = scanner.find_matches("\"#", 0);
    assert_eq!(texts("\"#", &ms), vec![("\"#", 2)]);
    scanner.reset_dynamic_state();
    let ms = scanner.find_matches("\"#", 0);
    assert_eq!(texts("\"#", &ms), vec![("\"", 99), ("#", 99)]);
}

#[test]
fn positions_are_reported() {
    let mut scanner = TestScanner::new();
    let input = "a\nr\"";
    let ms = scanner.find_matches_with_position(input, 0);
    // The newline belongs to no character class and is skipped.
    assert_eq!(ms.len(), 2);
    let p = ms[1].positions.as_ref().unwrap();
    assert_eq!((p.start.line, p.start.column), (2, 1));
    assert_eq!((p.end.line, p.end.column), (2, 3));
}

#[test]
fn match_function_of_test_scanner() {
    assert_eq!(TestScanner::match_function('r'), Some(3));
    assert_eq!(TestScanner::match_function('#'), Some(2));
    assert_eq!(TestScanner::match_function('\n'), None);
}

#[test]
fn mode_names() {
    let scanner = TestScanner::new();
    assert_eq!(scanner.current_mode_name(), "INITIAL");
    assert_eq!(scanner.mode_name(5), Some("Unknown".to_string()));
    assert_eq!(scanner.current_mode_index(), 0);
}
