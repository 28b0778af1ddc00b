//! Integration tests for runtime state support (dynamic delimiter matching).
//!
//! Tests the capture/validate state operations for matching constructs like
//! Rust raw strings where the closing delimiter must match the opening delimiter.

use scnr2::match_types::Match;
use scnr2::scanner::Scanner;

// A simple scanner for Rust raw strings
const RAW_STRING_SCANNER: &str = r####################"    RawStringScanner {
        state n: count(0..=16);

        mode INITIAL {
            // Opener: r followed by 0-16 hashes and a quote
            token r"r" + capture("#", n) + r#"""# => 1;
            // Other tokens
            token r"\s+" => 98;
            token r"." => 99;

            on 1 enter RAW;
        }

        mode RAW {
            // Content: non-quote characters
            token r#"[^"]*"# => 10;

            // Exact close: quote followed by exactly n hashes
            token r#"""# + validate("#", n) => 20;

            // Partial close: quote followed by fewer hashes than n (treated as content)
            token r#"""# + validate("#", n, 0..n) => 10;

            on 20 enter INITIAL;
        }
    }"####################;

#[test]
fn runtime_state_test_test_raw_string_simple() {
    // Simple raw string with no hashes: r"simple"
    let input = r#"r"simple""#;
    let mut scanner = Scanner::new(RAW_STRING_SCANNER).unwrap();
    let matches: Vec<Match> = scanner.find_matches(input, 0);

    for (i, m) in matches.iter().enumerate() {
        println!(
            "Match {}: token_type={}, span={:?}, text={:?}",
            i,
            m.token_type,
            m.span.clone(),
            &input[m.span.clone()]
        );
    }

    assert_eq!(matches.len(), 3);
    // Opener: r"
    assert_eq!(matches[0].token_type, 1);
    assert_eq!(&input[matches[0].span.clone()], r#"r""#);
    // Content: simple
    assert_eq!(matches[1].token_type, 10);
    assert_eq!(&input[matches[1].span.clone()], "simple");
    // Closer: "
    assert_eq!(matches[2].token_type, 20);
    assert_eq!(&input[matches[2].span.clone()], "\"");
}

#[test]
fn runtime_state_test_test_raw_string_with_hashes() {
    // Raw string with 2 hashes: r##"content"##
    let input = r###"r##"content"##"###;
    let mut scanner = Scanner::new(RAW_STRING_SCANNER).unwrap();
    let matches: Vec<Match> = scanner.find_matches(input, 0);

    assert_eq!(matches.len(), 3);
    // Opener: r##"
    assert_eq!(matches[0].token_type, 1);
    assert_eq!(&input[matches[0].span.clone()], r##"r##""##);
    // Content: content
    assert_eq!(matches[1].token_type, 10);
    assert_eq!(&input[matches[1].span.clone()], "content");
    // Closer: "##
    assert_eq!(matches[2].token_type, 20);
    assert_eq!(&input[matches[2].span.clone()], "\"##");
}

#[test]
fn runtime_state_test_test_raw_string_with_partial_close() {
    // Raw string: r##"hello "# world"##
    // The "# in the middle is NOT a closer because we captured n=2
    let input = r###"r##"hello "# world"##"###;
    let mut scanner = Scanner::new(RAW_STRING_SCANNER).unwrap();
    let matches: Vec<Match> = scanner.find_matches(input, 0);

    println!("Actual matches:");
    for (i, m) in matches.iter().enumerate() {
        println!(
            "Match {}: token_type={}, span={:?}, text={:?}",
            i, m.token_type, m.span.clone(), &input[m.span.clone()]
        );
    }

    // Expected tokens with multi-accept DFA implementation:
    // 1: r##" (opener, n=2)
    // 10: hello  (content)
    // 10: "# (partial close - validate fails, falls back to content pattern)
    // 10:  world (content)
    // 20: "## (exact close)
    assert_eq!(matches.len(), 5);

    assert_eq!(matches[0].token_type, 1);
    assert_eq!(&input[matches[0].span.clone()], r##"r##""##);

    assert_eq!(matches[1].token_type, 10);
    assert_eq!(&input[matches[1].span.clone()], "hello ");

    // The partial close "# is now correctly matched as content
    assert_eq!(matches[2].token_type, 10);
    assert_eq!(&input[matches[2].span.clone()], "\"#");

    assert_eq!(matches[3].token_type, 10);
    assert_eq!(&input[matches[3].span.clone()], " world");

    assert_eq!(matches[4].token_type, 20);
    assert_eq!(&input[matches[4].span.clone()], "\"##");
}

#[test]
fn runtime_state_test_test_multiple_raw_strings() {
    // Multiple raw strings with different hash counts
    let input = r###"r"a" r#"b"# r##"c"##"###;
    let mut scanner = Scanner::new(RAW_STRING_SCANNER).unwrap();
    let matches: Vec<Match> = scanner.find_matches(input, 0);

    // First string: r"a"
    assert_eq!(matches[0].token_type, 1); // opener
    assert_eq!(matches[1].token_type, 10); // content "a"
    assert_eq!(matches[2].token_type, 20); // closer

    // Whitespace
    assert_eq!(matches[3].token_type, 98);

    // Second string: r#"b"#
    assert_eq!(matches[4].token_type, 1); // opener
    assert_eq!(matches[5].token_type, 10); // content "b"
    assert_eq!(matches[6].token_type, 20); // closer

    // Whitespace
    assert_eq!(matches[7].token_type, 98);

    // Third string: r##"c"##
    assert_eq!(matches[8].token_type, 1); // opener
    assert_eq!(matches[9].token_type, 10); // content "c"
    assert_eq!(matches[10].token_type, 20); // closer
}

#[test]
fn runtime_state_test_test_raw_string_max_hashes() {
    // Test with 16 hashes (the maximum declared)
    let input = r#################"r################"test"################"#################;
    let mut scanner = Scanner::new(RAW_STRING_SCANNER).unwrap();
    let matches: Vec<Match> = scanner.find_matches(input, 0);

    assert_eq!(matches.len(), 3);
    assert_eq!(matches[0].token_type, 1); // opener
    assert_eq!(matches[1].token_type, 10); // content
    assert_eq!(matches[2].token_type, 20); // closer
}

// Scanner to test multi-character count patterns like "##"
const DOUBLE_HASH_SCANNER: &str = r####################"    DoubleHashScanner {
        state n: count(0..=4);

        mode INITIAL {
            token r"r" + capture("##", n) + r#"""# => 1;
            token r"." => 99;
            on 1 enter RAW;
        }

        mode RAW {
            token r#"[^"]*"# => 10;
            token r#"""# + validate("##", n) => 20;
            token r#"""# + validate("##", n, 0..n) => 10;
            on 20 enter INITIAL;
        }
    }"####################;

#[test]
fn runtime_state_test_test_multi_char_count() {
    let input = r#####"r####"ok"####"#####;
    let mut scanner = Scanner::new(DOUBLE_HASH_SCANNER).unwrap();
    let matches: Vec<Match> = scanner.find_matches(input, 0);

    assert_eq!(matches.len(), 3);
    assert_eq!(matches[0].token_type, 1);
    assert_eq!(&input[matches[0].span.clone()], "r####\"");
    assert_eq!(matches[1].token_type, 10);
    assert_eq!(&input[matches[1].span.clone()], "ok");
    assert_eq!(matches[2].token_type, 20);
    assert_eq!(&input[matches[2].span.clone()], "\"####");
}

// Scanner to test string state capture/validate
const MARKER_SCANNER: &str = r####################"    MarkerScanner {
        state marker: str(r"[A-Z]{1,4}");

        mode INITIAL {
            token capture(marker) + r":" => 1;
            token validate(marker) => 2;
            token r"." => 99;
        }
    }"####################;

#[test]
fn runtime_state_test_test_string_state_capture_validate() {
    let input = "ABC:ABC";
    let mut scanner = Scanner::new(MARKER_SCANNER).unwrap();
    let matches: Vec<Match> = scanner.find_matches(input, 0);

    assert_eq!(matches.len(), 2);
    assert_eq!(matches[0].token_type, 1);
    assert_eq!(&input[matches[0].span.clone()], "ABC:");
    assert_eq!(matches[1].token_type, 2);
    assert_eq!(&input[matches[1].span.clone()], "ABC");
}

#[test]
fn runtime_state_test_test_string_state_bounds_rejects_invalid_marker() {
    let input = "ABCDE:ABCDE";
    let mut scanner = Scanner::new(MARKER_SCANNER).unwrap();
    let matches: Vec<Match> = scanner.find_matches(input, 0);

    assert_eq!(matches[0].token_type, 99);
    assert_eq!(&input[matches[0].span.clone()], "A");
}

// Scanner to test StateOp with lookahead
const LOOKAHEAD_SCANNER: &str = r####################"    LookaheadScanner {
        state n: count(0..=4);

        mode INITIAL {
            token r"r" + capture("#", n) + r#"""# followed by r"[a-z]" => 1;
            token r"." => 99;
            on 1 enter RAW;
        }

        mode RAW {
            token r#"[^"]*"# => 10;
            token r#"""# + validate("#", n) => 20;
            token r#"""# + validate("#", n, 0..n) => 10;
            on 20 enter INITIAL;
        }
    }"####################;

#[test]
fn runtime_state_test_test_state_op_with_lookahead() {
    let input = r###"r#"a"#"###;
    let mut scanner = Scanner::new(LOOKAHEAD_SCANNER).unwrap();
    let matches: Vec<Match> = scanner.find_matches(input, 0);

    assert_eq!(matches.len(), 3);
    assert_eq!(matches[0].token_type, 1);
    assert_eq!(&input[matches[0].span.clone()], r#"r#""#);
    assert_eq!(matches[1].token_type, 10);
    assert_eq!(&input[matches[1].span.clone()], "a");
    assert_eq!(matches[2].token_type, 20);
    assert_eq!(&input[matches[2].span.clone()], "\"#");
}

// Scanner to test StateOp with negative lookahead
const NEGATIVE_LOOKAHEAD_SCANNER: &str = r####################"    NegativeLookaheadScanner {
        state n: count(0..=4);

        mode INITIAL {
            token r"r" + capture("#", n) + r#"""# not followed by r"[0-9]" => 1;
            token r"." => 99;
            on 1 enter RAW;
        }

        mode RAW {
            token r#"[^"]*"# => 10;
            token r#"""# + validate("#", n) => 20;
            token r#"""# + validate("#", n, 0..n) => 10;
            on 20 enter INITIAL;
        }
    }"####################;

#[test]
fn runtime_state_test_test_state_op_with_negative_lookahead() {
    let input = r###"r#"a"#"###;
    let mut scanner = Scanner::new(NEGATIVE_LOOKAHEAD_SCANNER).unwrap();
    let matches: Vec<Match> = scanner.find_matches(input, 0);

    assert_eq!(matches.len(), 3);
    assert_eq!(matches[0].token_type, 1);
    assert_eq!(&input[matches[0].span.clone()], r#"r#""#);
    assert_eq!(matches[1].token_type, 10);
    assert_eq!(&input[matches[1].span.clone()], "a");
    assert_eq!(matches[2].token_type, 20);
    assert_eq!(&input[matches[2].span.clone()], "\"#");
}

// Scanner to verify positive lookahead remains zero-width without state ops.
const ZERO_WIDTH_POSITIVE_LOOKAHEAD_SCANNER: &str = r####################"    ZeroWidthPositiveLookaheadScanner {
        mode INITIAL {
            token r"ab" followed by r"c" => 1;
            token r"c" => 2;
            token r"." => 99;
        }
    }"####################;

#[test]
fn runtime_state_test_test_positive_lookahead_is_zero_width() {
    let input = "abc";
    let mut scanner = Scanner::new(ZERO_WIDTH_POSITIVE_LOOKAHEAD_SCANNER).unwrap();
    let matches: Vec<Match> = scanner.find_matches(input, 0);

    assert_eq!(matches.len(), 2);
    assert_eq!(matches[0].token_type, 1);
    assert_eq!(&input[matches[0].span.clone()], "ab");
    assert_eq!(matches[1].token_type, 2);
    assert_eq!(&input[matches[1].span.clone()], "c");
}

// Scanner to verify negative lookahead acceptance/rejection remains zero-width without state ops.
const ZERO_WIDTH_NEGATIVE_LOOKAHEAD_SCANNER: &str = r####################"    ZeroWidthNegativeLookaheadScanner {
        mode INITIAL {
            token r"ab" not followed by r"c" => 1;
            token r"." => 99;
        }
    }"####################;

#[test]
fn runtime_state_test_test_negative_lookahead_accepts_without_consuming_lookahead_text() {
    let input = "abd";
    let mut scanner = Scanner::new(ZERO_WIDTH_NEGATIVE_LOOKAHEAD_SCANNER).unwrap();
    let matches: Vec<Match> = scanner.find_matches(input, 0);

    assert_eq!(matches.len(), 2);
    assert_eq!(matches[0].token_type, 1);
    assert_eq!(&input[matches[0].span.clone()], "ab");
    assert_eq!(matches[1].token_type, 99);
    assert_eq!(&input[matches[1].span.clone()], "d");
}

#[test]
fn runtime_state_test_test_negative_lookahead_rejection_does_not_change_span_mechanics() {
    let input = "abc";
    let mut scanner = Scanner::new(ZERO_WIDTH_NEGATIVE_LOOKAHEAD_SCANNER).unwrap();
    let matches: Vec<Match> = scanner.find_matches(input, 0);

    assert_eq!(matches.len(), 3);
    assert!(matches.iter().all(|m| m.token_type == 99));
    assert_eq!(&input[matches[0].span.clone()], "a");
    assert_eq!(&input[matches[1].span.clone()], "b");
    assert_eq!(&input[matches[2].span.clone()], "c");
}

// Scanner to test capture group index with non-capturing groups
const NON_CAPTURING_GROUP_SCANNER: &str = r####################"    NonCapturingGroupScanner {
        state n: count(0..=4);

        mode INITIAL {
            token r"(?:ab)+" + capture("#", n) + r#"""# => 1;
            token r"." => 99;
        }
    }"####################;

#[test]
fn runtime_state_test_test_non_capturing_groups_with_state_op() {
    let input = "abab##\"";
    let mut scanner = Scanner::new(NON_CAPTURING_GROUP_SCANNER).unwrap();
    let matches: Vec<Match> = scanner.find_matches(input, 0);

    assert_eq!(matches.len(), 1);
    assert_eq!(matches[0].token_type, 1);
    assert_eq!(&input[matches[0].span.clone()], "abab##\"");
}

// Scanner to test arithmetic constraints at runtime (n-1..n+1)
const ARITHMETIC_CONSTRAINT_SCANNER: &str = r####################"    ArithmeticConstraintScanner {
        state n: count(0..=4);

        mode INITIAL {
            token r"A" + capture("#", n) + r"B" => 1;
            token r"." => 99;
            on 1 enter CHECK;
        }

        mode CHECK {
            token validate("#", n, n-1..n+1) followed by r"X" => 2;
            token r"." => 99;
            on 2 enter INITIAL;
            on 99 enter INITIAL;
        }
    }"####################;

// Scanner to test state overwrite behavior.
const OVERWRITE_STATE_SCANNER: &str = r####################"    OverwriteStateScanner {
        state n: count(0..=4);

        mode INITIAL {
            token r"A" + capture("#", n) => 1;
            token r"." => 99;
            on 1 enter SECOND;
        }

        mode SECOND {
            token r"B" + capture("##", n) => 2;
            token r"." => 99;
            on 2 enter THIRD;
        }

        mode THIRD {
            token r"C" + validate("#", n) => 3;
            token r"." => 99;
            on 3 enter INITIAL;
            on 99 enter INITIAL;
        }
    }"####################;

// Scanner to test missing-state validation failure.
const MISSING_STATE_SCANNER: &str = r####################"    MissingStateScanner {
        state n: count(0..=4);

        mode INITIAL {
            token validate("#", n) => 1;
            token r"." => 99;
        }
    }"####################;

// Scanner to test multi-byte count patterns.
const MULTIBYTE_COUNT_SCANNER: &str = r####################"    MultibyteCountScanner {
        state n: count(0..=4);

        mode INITIAL {
            token r"A" + capture("é", n) => 1;
            token r"." => 99;
            on 1 enter CHECK;
        }

        mode CHECK {
            token r"B" + validate("é", n) => 2;
            token r"." => 99;
            on 2 enter INITIAL;
            on 99 enter INITIAL;
        }
    }"####################;

// Scanner to ensure capture only applies to the finally selected match.
const CAPTURE_ISOLATION_SCANNER: &str = r####################"    CaptureIsolationScanner {
        state n: count(1..=1);

        mode INITIAL {
            token capture("#", n) => 1;
            token r"##" => 2;
            token r"." => 99;
            on 2 enter CHECK;
        }

        mode CHECK {
            token validate("#", n) => 3;
            token r"." => 99;
            on 3 enter INITIAL;
            on 99 enter INITIAL;
        }
    }"####################;

#[test]
fn runtime_state_test_test_arithmetic_constraint_accepts_n_minus_1() {
    let input = "A###B##X";
    let mut scanner = Scanner::new(ARITHMETIC_CONSTRAINT_SCANNER).unwrap();
    let matches: Vec<Match> = scanner.find_matches(input, 0);

    assert_eq!(matches[0].token_type, 1);
    assert_eq!(&input[matches[0].span.clone()], "A###B");
    assert_eq!(matches[1].token_type, 2);
    assert_eq!(&input[matches[1].span.clone()], "##");
}

#[test]
fn runtime_state_test_test_arithmetic_constraint_rejects_n_plus_1() {
    let input = "A###B####X";
    let mut scanner = Scanner::new(ARITHMETIC_CONSTRAINT_SCANNER).unwrap();
    let matches: Vec<Match> = scanner.find_matches(input, 0);

    assert_eq!(matches[0].token_type, 1);
    assert!(!matches.iter().any(|m| m.token_type == 2));
    let fallback_count = matches.iter().filter(|m| m.token_type == 99).count();
    assert!(fallback_count >= 4);
}

#[test]
fn runtime_state_test_test_capture_only_applies_to_final_match() {
    // The longer token r"##" should win; capture("#", n) must not mutate state.
    let input = "###";
    let mut scanner = Scanner::new(CAPTURE_ISOLATION_SCANNER).unwrap();
    let matches: Vec<Match> = scanner.find_matches(input, 0);

    assert_eq!(matches.len(), 2);
    assert_eq!(matches[0].token_type, 2);
    assert_eq!(&input[matches[0].span.clone()], "##");

    // validate("#", n) should fail because no capture was applied for the first token.
    assert_eq!(matches[1].token_type, 99);
    assert_eq!(&input[matches[1].span.clone()], "#");
}

#[test]
fn runtime_state_test_test_state_overwrite_behavior() {
    let input = "A###B####C##";
    let mut scanner = Scanner::new(OVERWRITE_STATE_SCANNER).unwrap();
    let matches: Vec<Match> = scanner.find_matches(input, 0);

    assert_eq!(matches.len(), 3);
    assert_eq!(matches[0].token_type, 1);
    assert_eq!(&input[matches[0].span.clone()], "A###");
    assert_eq!(matches[1].token_type, 2);
    assert_eq!(&input[matches[1].span.clone()], "B####");
    assert_eq!(matches[2].token_type, 3);
    assert_eq!(&input[matches[2].span.clone()], "C##");
}

#[test]
fn runtime_state_test_test_missing_state_validation_fails() {
    let input = "#";
    let mut scanner = Scanner::new(MISSING_STATE_SCANNER).unwrap();
    let matches: Vec<Match> = scanner.find_matches(input, 0);

    assert_eq!(matches.len(), 1);
    assert_eq!(matches[0].token_type, 99);
    assert_eq!(&input[matches[0].span.clone()], "#");
}

#[test]
fn runtime_state_test_test_multibyte_count_patterns() {
    let input = "AééBéé";
    let mut scanner = Scanner::new(MULTIBYTE_COUNT_SCANNER).unwrap();
    let matches: Vec<Match> = scanner.find_matches(input, 0);

    assert_eq!(matches.len(), 2);
    assert_eq!(matches[0].token_type, 1);
    assert_eq!(&input[matches[0].span.clone()], "Aéé");
    assert_eq!(matches[1].token_type, 2);
    assert_eq!(&input[matches[1].span.clone()], "Béé");
}

#[test]
fn runtime_state_test_test_raw_string_partial_close_with_n_zero() {
    // Edge case: n=0 captured from opener r" (no hashes).
    // The partial-close pattern validate("#", n, 0..n) uses Range [0, 0) which is empty,
    // so nothing satisfies it. Only the exact-close validate("#", n) with Equals (0 == 0)
    // should match.
    //
    // Input: r"x"#y"
    //   r"   → opener (token 1, captures n=0)
    //   x    → content (token 10)
    //   "    → exact close: Equals (0 == 0) succeeds → token 20
    //   #y"  → back in INITIAL mode: three fallback tokens (99, 99, 99)
    let input = r##"r"x"#y""##;
    let mut scanner = Scanner::new(RAW_STRING_SCANNER).unwrap();
    let matches: Vec<Match> = scanner.find_matches(input, 0);

    for (i, m) in matches.iter().enumerate() {
        println!(
            "Match {}: token_type={}, span={:?}, text={:?}",
            i,
            m.token_type,
            m.span.clone(),
            &input[m.span.clone()]
        );
    }

    assert_eq!(matches.len(), 6);
    // Opener: r"
    assert_eq!(matches[0].token_type, 1);
    assert_eq!(&input[matches[0].span.clone()], "r\"");
    // Content: x
    assert_eq!(matches[1].token_type, 10);
    assert_eq!(&input[matches[1].span.clone()], "x");
    // Closer: " (exact match, 0 == 0)
    assert_eq!(matches[2].token_type, 20);
    assert_eq!(&input[matches[2].span.clone()], "\"");
    // Back in INITIAL: #, y, " are each fallback token 99
    assert_eq!(matches[3].token_type, 99);
    assert_eq!(&input[matches[3].span.clone()], "#");
    assert_eq!(matches[4].token_type, 99);
    assert_eq!(&input[matches[4].span.clone()], "y");
    assert_eq!(matches[5].token_type, 99);
    assert_eq!(&input[matches[5].span.clone()], "\"");
}
