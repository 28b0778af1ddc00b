use scnr2::match_types::Match;
use scnr2::scanner::Scanner;

const RAW_STRING_SCANNER: &str = r####################"    RawStringScanner {
        state n: count(0..=16);

        mode INITIAL {
            token r"r" + capture("#", n) + r#"""# => 1;
            token r"\s+" => 98;
            token r"." => 99;

            on 1 enter RAW;
        }

        mode RAW {
            token r#"[^"]*"# => 10;
            token r#"""# + validate("#", n) => 20;
            token r#"""# + validate("#", n, 0..n) => 10;

            on 20 enter INITIAL;
        }
    }"####################;

#[test]
fn dynamic_state_test_test_raw_string_simple() {
    let input = r#"r"simple""#;
    let mut scanner = Scanner::new(RAW_STRING_SCANNER).unwrap();
    let matches: Vec<Match> = scanner.find_matches(input, 0);

    assert_eq!(matches.len(), 3);
    assert_eq!(matches[0].token_type, 1);
    assert_eq!(&input[matches[0].span.clone()], r#"r""#);
    assert_eq!(matches[1].token_type, 10);
    assert_eq!(&input[matches[1].span.clone()], "simple");
    assert_eq!(matches[2].token_type, 20);
    assert_eq!(&input[matches[2].span.clone()], "\"");
}

#[test]
fn dynamic_state_test_test_raw_string_with_hashes() {
    let input = r###"r##"content"##"###;
    let mut scanner = Scanner::new(RAW_STRING_SCANNER).unwrap();
    let matches: Vec<Match> = scanner.find_matches(input, 0);

    assert_eq!(matches.len(), 3);
    assert_eq!(matches[0].token_type, 1);
    assert_eq!(&input[matches[0].span.clone()], r##"r##""##);
    assert_eq!(matches[1].token_type, 10);
    assert_eq!(&input[matches[1].span.clone()], "content");
    assert_eq!(matches[2].token_type, 20);
    assert_eq!(&input[matches[2].span.clone()], "\"##");
}

#[test]
fn dynamic_state_test_test_raw_string_with_partial_close() {
    let input = r###"r##"hello "# world"##"###;
    let mut scanner = Scanner::new(RAW_STRING_SCANNER).unwrap();
    let matches: Vec<Match> = scanner.find_matches(input, 0);

    assert_eq!(matches.len(), 5);
    assert_eq!(matches[0].token_type, 1);
    assert_eq!(&input[matches[0].span.clone()], r##"r##""##);
    assert_eq!(matches[1].token_type, 10);
    assert_eq!(&input[matches[1].span.clone()], "hello ");
    assert_eq!(matches[2].token_type, 10);
    assert_eq!(&input[matches[2].span.clone()], "\"#");
    assert_eq!(matches[3].token_type, 10);
    assert_eq!(&input[matches[3].span.clone()], " world");
    assert_eq!(matches[4].token_type, 20);
    assert_eq!(&input[matches[4].span.clone()], "\"##");
}

#[test]
fn dynamic_state_test_test_multiple_raw_strings() {
    let input = r###"r"a" r#"b"# r##"c"##"###;
    let mut scanner = Scanner::new(RAW_STRING_SCANNER).unwrap();
    let matches: Vec<Match> = scanner.find_matches(input, 0);

    assert_eq!(matches[0].token_type, 1);
    assert_eq!(matches[1].token_type, 10);
    assert_eq!(matches[2].token_type, 20);
    assert_eq!(matches[3].token_type, 98);
    assert_eq!(matches[4].token_type, 1);
    assert_eq!(matches[5].token_type, 10);
    assert_eq!(matches[6].token_type, 20);
    assert_eq!(matches[7].token_type, 98);
    assert_eq!(matches[8].token_type, 1);
    assert_eq!(matches[9].token_type, 10);
    assert_eq!(matches[10].token_type, 20);
}

#[test]
fn dynamic_state_test_test_raw_string_max_hashes() {
    let input = r#################"r################"test"################"#################;
    let mut scanner = Scanner::new(RAW_STRING_SCANNER).unwrap();
    let matches: Vec<Match> = scanner.find_matches(input, 0);

    assert_eq!(matches.len(), 3);
    assert_eq!(matches[0].token_type, 1);
    assert_eq!(matches[1].token_type, 10);
    assert_eq!(matches[2].token_type, 20);
}

#[test]
fn dynamic_state_test_test_raw_string_partial_close_with_n_zero() {
    let input = r##"r"x"#y""##;
    let mut scanner = Scanner::new(RAW_STRING_SCANNER).unwrap();
    let matches: Vec<Match> = scanner.find_matches(input, 0);

    assert_eq!(matches.len(), 6);
    assert_eq!(matches[0].token_type, 1);
    assert_eq!(&input[matches[0].span.clone()], "r\"");
    assert_eq!(matches[1].token_type, 10);
    assert_eq!(&input[matches[1].span.clone()], "x");
    assert_eq!(matches[2].token_type, 20);
    assert_eq!(&input[matches[2].span.clone()], "\"");
    assert_eq!(matches[3].token_type, 99);
    assert_eq!(&input[matches[3].span.clone()], "#");
    assert_eq!(matches[4].token_type, 99);
    assert_eq!(&input[matches[4].span.clone()], "y");
    assert_eq!(matches[5].token_type, 99);
    assert_eq!(&input[matches[5].span.clone()], "\"");
}

const DOUBLE_HASH_SCANNER: &str = r####################"    DoubleHashScanner {
        state n: count(0..=4);

        mode INITIAL {
            token r"r" + capture("##", n) + r#"""# => 1;
            token r"." => 99;
            on 1 enter RAW;
        }

        mode RAW {
            token r#"[^"]*"# => 10;
            token r#"""# + validate("##", n) => 20;
            token r#"""# + validate("##", n, 0..n) => 10;
            on 20 enter INITIAL;
        }
    }"####################;

#[test]
fn dynamic_state_test_test_multi_char_count() {
    let input = r#####"r####"ok"####"#####;
    let mut scanner = Scanner::new(DOUBLE_HASH_SCANNER).unwrap();
    let matches: Vec<Match> = scanner.find_matches(input, 0);

    assert_eq!(matches.len(), 3);
    assert_eq!(matches[0].token_type, 1);
    assert_eq!(&input[matches[0].span.clone()], "r####\"");
    assert_eq!(matches[1].token_type, 10);
    assert_eq!(&input[matches[1].span.clone()], "ok");
    assert_eq!(matches[2].token_type, 20);
    assert_eq!(&input[matches[2].span.clone()], "\"####");
}

const MARKER_SCANNER: &str = r####################"    MarkerScanner {
        state marker: str(r"[A-Z]{1,4}");

        mode INITIAL {
            token capture(marker) + r":" => 1;
            token validate(marker) => 2;
            token r"." => 99;
        }
    }"####################;

#[test]
fn dynamic_state_test_test_string_state_capture_validate() {
    let input = "ABC:ABC";
    let mut scanner = Scanner::new(MARKER_SCANNER).unwrap();
    let matches: Vec<Match> = scanner.find_matches(input, 0);

    assert_eq!(matches.len(), 2);
    assert_eq!(matches[0].token_type, 1);
    assert_eq!(&input[matches[0].span.clone()], "ABC:");
    assert_eq!(matches[1].token_type, 2);
    assert_eq!(&input[matches[1].span.clone()], "ABC");
}

#[test]
fn dynamic_state_test_test_string_state_bounds_rejects_invalid_marker() {
    let input = "ABCDE:ABCDE";
    let mut scanner = Scanner::new(MARKER_SCANNER).unwrap();
    let matches: Vec<Match> = scanner.find_matches(input, 0);

    assert_eq!(matches[0].token_type, 99);
    assert_eq!(&input[matches[0].span.clone()], "A");
}

#[test]
fn test_dynamic_state_persists_until_reset() {
    let mut scanner = Scanner::new(MARKER_SCANNER).unwrap();
    let first: Vec<Match> = scanner.find_matches("ABC:", 0);
    assert_eq!(first[0].token_type, 1);

    let second: Vec<Match> = scanner.find_matches("ABC", 0);
    assert_eq!(second.len(), 1);
    assert_eq!(second[0].token_type, 2);

    scanner.reset_dynamic_state();
    let third: Vec<Match> = scanner.find_matches("ABC", 0);
    assert_eq!(third.len(), 3);
    assert!(third.iter().all(|m| m.token_type == 99));
}

const LOOKAHEAD_SCANNER: &str = r####################"    LookaheadScanner {
        state n: count(0..=4);

        mode INITIAL {
            token r"r" + capture("#", n) + r#"""# followed by r"[a-z]" => 1;
            token r"." => 99;
            on 1 enter RAW;
        }

        mode RAW {
            token r#"[^"]*"# => 10;
            token r#"""# + validate("#", n) => 20;
            token r#"""# + validate("#", n, 0..n) => 10;
            on 20 enter INITIAL;
        }
    }"####################;

#[test]
fn dynamic_state_test_test_state_op_with_lookahead() {
    let input = r###"r#"a"#"###;
    let mut scanner = Scanner::new(LOOKAHEAD_SCANNER).unwrap();
    let matches: Vec<Match> = scanner.find_matches(input, 0);

    assert_eq!(matches.len(), 3);
    assert_eq!(matches[0].token_type, 1);
    assert_eq!(&input[matches[0].span.clone()], r#"r#""#);
    assert_eq!(matches[1].token_type, 10);
    assert_eq!(&input[matches[1].span.clone()], "a");
    assert_eq!(matches[2].token_type, 20);
    assert_eq!(&input[matches[2].span.clone()], "\"#");
}

const NEGATIVE_LOOKAHEAD_SCANNER: &str = r####################"    NegativeLookaheadScanner {
        state n: count(0..=4);

        mode INITIAL {
            token r"r" + capture("#", n) + r#"""# not followed by r"[0-9]" => 1;
            token r"." => 99;
            on 1 enter RAW;
        }

        mode RAW {
            token r#"[^"]*"# => 10;
            token r#"""# + validate("#", n) => 20;
            token r#"""# + validate("#", n, 0..n) => 10;
            on 20 enter INITIAL;
        }
    }"####################;

#[test]
fn dynamic_state_test_test_state_op_with_negative_lookahead() {
    let input = r###"r#"a"#"###;
    let mut scanner = Scanner::new(NEGATIVE_LOOKAHEAD_SCANNER).unwrap();
    let matches: Vec<Match> = scanner.find_matches(input, 0);

    assert_eq!(matches.len(), 3);
    assert_eq!(matches[0].token_type, 1);
    assert_eq!(&input[matches[0].span.clone()], r#"r#""#);
    assert_eq!(matches[1].token_type, 10);
    assert_eq!(&input[matches[1].span.clone()], "a");
    assert_eq!(matches[2].token_type, 20);
    assert_eq!(&input[matches[2].span.clone()], "\"#");
}

const ZERO_WIDTH_POSITIVE_LOOKAHEAD_SCANNER: &str = r####################"    ZeroWidthPositiveLookaheadScanner {
        mode INITIAL {
            token r"ab" followed by r"c" => 1;
            token r"c" => 2;
            token r"." => 99;
        }
    }"####################;

#[test]
fn dynamic_state_test_test_positive_lookahead_is_zero_width() {
    let input = "abc";
    let mut scanner = Scanner::new(ZERO_WIDTH_POSITIVE_LOOKAHEAD_SCANNER).unwrap();
    let matches: Vec<Match> = scanner.find_matches(input, 0);

    assert_eq!(matches.len(), 2);
    assert_eq!(matches[0].token_type, 1);
    assert_eq!(&input[matches[0].span.clone()], "ab");
    assert_eq!(matches[1].token_type, 2);
    assert_eq!(&input[matches[1].span.clone()], "c");
}

const ZERO_WIDTH_NEGATIVE_LOOKAHEAD_SCANNER: &str = r####################"    ZeroWidthNegativeLookaheadScanner {
        mode INITIAL {
            token r"ab" not followed by r"c" => 1;
            token r"." => 99;
        }
    }"####################;

#[test]
fn dynamic_state_test_test_negative_lookahead_accepts_without_consuming_lookahead_text() {
    let input = "abd";
    let mut scanner = Scanner::new(ZERO_WIDTH_NEGATIVE_LOOKAHEAD_SCANNER).unwrap();
    let matches: Vec<Match> = scanner.find_matches(input, 0);

    assert_eq!(matches.len(), 2);
    assert_eq!(matches[0].token_type, 1);
    assert_eq!(&input[matches[0].span.clone()], "ab");
    assert_eq!(matches[1].token_type, 99);
    assert_eq!(&input[matches[1].span.clone()], "d");
}

#[test]
fn dynamic_state_test_test_negative_lookahead_rejection_does_not_change_span_mechanics() {
    let input = "abc";
    let mut scanner = Scanner::new(ZERO_WIDTH_NEGATIVE_LOOKAHEAD_SCANNER).unwrap();
    let matches: Vec<Match> = scanner.find_matches(input, 0);

    assert_eq!(matches.len(), 3);
    assert!(matches.iter().all(|m| m.token_type == 99));
    assert_eq!(&input[matches[0].span.clone()], "a");
    assert_eq!(&input[matches[1].span.clone()], "b");
    assert_eq!(&input[matches[2].span.clone()], "c");
}

const NON_CAPTURING_GROUP_SCANNER: &str = r####################"    NonCapturingGroupScanner {
        state n: count(0..=4);

        mode INITIAL {
            token r"(?:ab)+" + capture("#", n) + r#"""# => 1;
            token r"." => 99;
        }
    }"####################;

#[test]
fn dynamic_state_test_test_non_capturing_groups_with_state_op() {
    let input = "abab##\"";
    let mut scanner = Scanner::new(NON_CAPTURING_GROUP_SCANNER).unwrap();
    let matches: Vec<Match> = scanner.find_matches(input, 0);

    assert_eq!(matches.len(), 1);
    assert_eq!(matches[0].token_type, 1);
    assert_eq!(&input[matches[0].span.clone()], "abab##\"");
}

const ARITHMETIC_CONSTRAINT_SCANNER: &str = r####################"    ArithmeticConstraintScanner {
        state n: count(0..=4);

        mode INITIAL {
            token r"A" + capture("#", n) + r"B" => 1;
            token r"." => 99;
            on 1 enter CHECK;
        }

        mode CHECK {
            token validate("#", n, n-1..n+1) followed by r"X" => 2;
            token r"." => 99;
            on 2 enter INITIAL;
            on 99 enter INITIAL;
        }
    }"####################;

#[test]
fn dynamic_state_test_test_arithmetic_constraint_accepts_n_minus_1() {
    let input = "A###B##X";
    let mut scanner = Scanner::new(ARITHMETIC_CONSTRAINT_SCANNER).unwrap();
    let matches: Vec<Match> = scanner.find_matches(input, 0);

    assert_eq!(matches[0].token_type, 1);
    assert_eq!(&input[matches[0].span.clone()], "A###B");
    assert_eq!(matches[1].token_type, 2);
    assert_eq!(&input[matches[1].span.clone()], "##");
}

#[test]
fn dynamic_state_test_test_arithmetic_constraint_rejects_n_plus_1() {
    let input = "A###B####X";
    let mut scanner = Scanner::new(ARITHMETIC_CONSTRAINT_SCANNER).unwrap();
    let matches: Vec<Match> = scanner.find_matches(input, 0);

    assert_eq!(matches[0].token_type, 1);
    assert!(!matches.iter().any(|m| m.token_type == 2));
    assert!(matches.iter().filter(|m| m.token_type == 99).count() >= 4);
}

const OVERWRITE_STATE_SCANNER: &str = r####################"    OverwriteStateScanner {
        state n: count(0..=4);

        mode INITIAL {
            token r"A" + capture("#", n) => 1;
            token r"." => 99;
            on 1 enter SECOND;
        }

        mode SECOND {
            token r"B" + capture("##", n) => 2;
            token r"." => 99;
            on 2 enter THIRD;
        }

        mode THIRD {
            token r"C" + validate("#", n) => 3;
            token r"." => 99;
            on 3 enter INITIAL;
            on 99 enter INITIAL;
        }
    }"####################;

#[test]
fn dynamic_state_test_test_state_overwrite_behavior() {
    let input = "A###B####C##";
    let mut scanner = Scanner::new(OVERWRITE_STATE_SCANNER).unwrap();
    let matches: Vec<Match> = scanner.find_matches(input, 0);

    assert_eq!(matches.len(), 3);
    assert_eq!(matches[0].token_type, 1);
    assert_eq!(&input[matches[0].span.clone()], "A###");
    assert_eq!(matches[1].token_type, 2);
    assert_eq!(&input[matches[1].span.clone()], "B####");
    assert_eq!(matches[2].token_type, 3);
    assert_eq!(&input[matches[2].span.clone()], "C##");
}

const MISSING_STATE_SCANNER: &str = r####################"    MissingStateScanner {
        state n: count(0..=4);

        mode INITIAL {
            token validate("#", n) => 1;
            token r"." => 99;
        }
    }"####################;

#[test]
fn dynamic_state_test_test_missing_state_validation_fails() {
    let input = "#";
    let mut scanner = Scanner::new(MISSING_STATE_SCANNER).unwrap();
    let matches: Vec<Match> = scanner.find_matches(input, 0);

    assert_eq!(matches.len(), 1);
    assert_eq!(matches[0].token_type, 99);
    assert_eq!(&input[matches[0].span.clone()], "#");
}

const MULTIBYTE_COUNT_SCANNER: &str = r####################"    MultibyteCountScanner {
        state n: count(0..=4);

        mode INITIAL {
            token r"A" + capture("é", n) => 1;
            token r"." => 99;
            on 1 enter CHECK;
        }

        mode CHECK {
            token r"B" + validate("é", n) => 2;
            token r"." => 99;
            on 2 enter INITIAL;
            on 99 enter INITIAL;
        }
    }"####################;

#[test]
fn dynamic_state_test_test_multibyte_count_patterns() {
    let input = "AééBéé";
    let mut scanner = Scanner::new(MULTIBYTE_COUNT_SCANNER).unwrap();
    let matches: Vec<Match> = scanner.find_matches(input, 0);

    assert_eq!(matches.len(), 2);
    assert_eq!(matches[0].token_type, 1);
    assert_eq!(&input[matches[0].span.clone()], "Aéé");
    assert_eq!(matches[1].token_type, 2);
    assert_eq!(&input[matches[1].span.clone()], "Béé");
}

const JAPANESE_COUNT_SCANNER: &str = r####################"    JapaneseCountScanner {
        state n: count(0..=4);

        mode INITIAL {
            token r"A" + capture("あ", n) => 1;
            token r"." => 99;
            on 1 enter CHECK;
        }

        mode CHECK {
            token r"B" + validate("あ", n) => 2;
            token r"." => 99;
            on 2 enter INITIAL;
            on 99 enter INITIAL;
        }
    }"####################;

#[test]
fn test_multibyte_japanese_count_patterns() {
    let input = "AああBああ";
    let mut scanner = Scanner::new(JAPANESE_COUNT_SCANNER).unwrap();
    let matches: Vec<Match> = scanner.find_matches(input, 0);

    assert_eq!(matches.len(), 2);
    assert_eq!(matches[0].token_type, 1);
    assert_eq!(&input[matches[0].span.clone()], "Aああ");
    assert_eq!(matches[1].token_type, 2);
    assert_eq!(&input[matches[1].span.clone()], "Bああ");
}

const CAPTURE_ISOLATION_SCANNER: &str = r####################"    CaptureIsolationScanner {
        state n: count(1..=1);

        mode INITIAL {
            token capture("#", n) => 1;
            token r"##" => 2;
            token r"." => 99;
            on 2 enter CHECK;
        }

        mode CHECK {
            token validate("#", n) => 3;
            token r"." => 99;
            on 3 enter INITIAL;
            on 99 enter INITIAL;
        }
    }"####################;

#[test]
fn dynamic_state_test_test_capture_only_applies_to_final_match() {
    let input = "###";
    let mut scanner = Scanner::new(CAPTURE_ISOLATION_SCANNER).unwrap();
    let matches: Vec<Match> = scanner.find_matches(input, 0);

    assert_eq!(matches.len(), 2);
    assert_eq!(matches[0].token_type, 2);
    assert_eq!(&input[matches[0].span.clone()], "##");
    assert_eq!(matches[1].token_type, 99);
    assert_eq!(&input[matches[1].span.clone()], "#");
}

// The runtime never reorders accept candidates by guard "strictness";
// priority is purely declaration order. If the user writes a looser
// validate before a stricter one, the stricter one is permanently
// shadowed
const MISORDERED_VALIDATES_SCANNER: &str = r####################"    MisorderedValidatesScanner {
        state n: count(0..=4);

        mode INITIAL {
            token r"A" + capture("#", n) + r"B" => 1;
            token r"." => 99;
            on 1 enter CHECK;
        }

        mode CHECK {
            token r"X" + validate("#", n, 0..5) => 10;
            token r"X" + validate("#", n) => 11; // strict equality
            token r"." => 99;
            on 10 enter INITIAL;
            on 11 enter INITIAL;
            on 99 enter INITIAL;
        }
    }"####################;

#[test]
fn test_misordered_validates_shadow_each_other() {
    // Captured n=2, then "X##". Both validates accept this text, but token 10
    // is declared first → it wins. Token 11 is unreachable.
    let input = "A##BX##";
    let mut scanner = Scanner::new(MISORDERED_VALIDATES_SCANNER).unwrap();
    let matches: Vec<Match> = scanner.find_matches(input, 0);

    assert_eq!(matches[0].token_type, 1);
    assert_eq!(matches[1].token_type, 10);
    assert_eq!(&input[matches[1].span.clone()], "X##");
}
