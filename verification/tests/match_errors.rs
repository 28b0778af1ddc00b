//! Error handling and edge-case tests for scnr2 scanner

use scnr2::match_types::{Match, Position, Positions};
use scnr2::scanner::Scanner;

const ERROR_SCANNER: &str = r####################"    ErrorScanner {
        mode INITIAL {
            token r"[ \n\t\f]+" => 1; // Whitespace
            token "[a-zA-Z_$][a-zA-Z0-9_$]*" => 2; // Identifier
            token r#""([^"\\]|\\t|\\u|\\n|\\")*""# => 3; // String
            token r"\d+" => 4; // Number
            token r"\+" => 5; // Plus
            token r"\(" => 6; // Open paren
            token r"\)" => 7; // Close paren
        }
    }"####################;

#[test]
fn test_empty_input_error_handling() {
    let mut scanner = Scanner::new(ERROR_SCANNER).unwrap();
    let matches: Vec<_> = scanner.find_matches("", 0);
    assert_eq!(matches.len(), 0, "Empty input should produce no matches");
}

#[test]
fn test_invalid_utf8_sequences() {
    let mut scanner = Scanner::new(ERROR_SCANNER).unwrap();

    // Test various invalid UTF-8 sequences
    let invalid_sequences: Vec<&[u8]> = vec![
        &[0xFF, 0xFE],       // Invalid start bytes
        &[0x80, 0x80],       // Continuation bytes without start
        &[0xC0, 0x80],       // Overlong encoding
        &[0xED, 0xA0, 0x80], // Surrogate pair
    ];

    for seq in invalid_sequences {
        let input = String::from_utf8_lossy(seq);
        let matches: Vec<_> = scanner.find_matches(&input, 0);
        // Should handle gracefully without panicking
        assert!(
            matches
                .iter()
                .all(|m| m.token_type == 1 || m.token_type > 0),
            "Invalid UTF-8 should be handled gracefully: {:?}",
            seq
        );
    }
}

#[test]
fn test_unterminated_strings() {
    let mut scanner = Scanner::new(ERROR_SCANNER).unwrap();

    let unterminated_cases = vec![
        "\"hello",    // No closing quote
        "\"hello\\",  // Ends with escape
        "\"hello\n",  // Newline in string
        "\"hello\\u", // Incomplete unicode escape
    ];

    for case in unterminated_cases {
        let matches: Vec<_> = scanner.find_matches(case, 0);
        // Should not panic and should handle the unterminated string
        assert!(
            !matches.is_empty(),
            "Should produce some match for: {}",
            case
        );
    }
}

#[test]
fn test_extremely_long_tokens() {
    let mut scanner = Scanner::new(ERROR_SCANNER).unwrap();

    // Test very long identifier
    let long_ident = "a".repeat(1_000_000);
    let matches: Vec<_> = scanner.find_matches(&long_ident, 0);
    assert_eq!(matches.len(), 1, "Should match single long identifier");
    assert_eq!(matches[0].token_type, 2, "Should be identifier token");
    assert_eq!(
        matches[0].span.end - matches[0].span.start,
        1_000_000,
        "Should span entire identifier"
    );
}

#[test]
fn test_deeply_nested_expressions() {
    let mut scanner = Scanner::new(ERROR_SCANNER).unwrap();

    // Create deeply nested parentheses
    let open_parens = "(".repeat(10_000);
    let close_parens = ")".repeat(10_000);
    let nested = format!("{}identifier{}", open_parens, close_parens);

    let matches: Vec<_> = scanner.find_matches(&nested, 0);
    assert_eq!(
        matches.len(),
        20_001,
        "Should match all parens plus identifier"
    );

    // Check first few and last few matches
    assert_eq!(matches[0].token_type, 6, "First should be open paren");
    assert_eq!(matches[10_000].token_type, 2, "Middle should be identifier");
    assert_eq!(
        matches[10_001].token_type, 7,
        "After identifier should be close paren"
    );
}

#[test]
fn test_null_bytes_in_input() {
    let mut scanner = Scanner::new(ERROR_SCANNER).unwrap();

    let input_with_nulls = "hello\0world\0test";
    let matches: Vec<_> = scanner.find_matches(input_with_nulls, 0);

    // Should handle null bytes gracefully
    assert!(
        !matches.is_empty(),
        "Should handle null bytes without panicking"
    );

    // Verify tokens are correctly identified around null bytes
    let identifiers: Vec<_> = matches.iter().filter(|m| m.token_type == 2).collect();
    assert!(!identifiers.is_empty(), "Should find identifier tokens");
}

#[test]
fn test_mixed_whitespace_edge_cases() {
    let mut scanner = Scanner::new(ERROR_SCANNER).unwrap();

    let mixed_whitespace = "\t\n\r\n \u{00A0}\u{2000}\u{2001}identifier";
    let matches: Vec<_> = scanner.find_matches(mixed_whitespace, 0);

    // Should handle various Unicode whitespace
    let ident_matches: Vec<_> = matches.iter().filter(|m| m.token_type == 2).collect();
    assert_eq!(ident_matches.len(), 1, "Should find exactly one identifier");
}

#[test]
fn test_boundary_conditions() {
    let mut scanner = Scanner::new(ERROR_SCANNER).unwrap();

    // Test scanning at different start positions
    let input = "abc def ghi";

    // Normal scan from start
    let matches_start: Vec<_> = scanner.find_matches(input, 0);
    assert!(!matches_start.is_empty(), "Should find matches from start");

    // Scan from middle
    let matches_middle: Vec<_> = scanner.find_matches(input, 4);
    assert!(
        !matches_middle.is_empty(),
        "Should find matches from middle"
    );
    let middle_count = matches_middle.iter().filter(|m| m.token_type == 2).count();
    assert_eq!(
        middle_count, 2,
        "scanning from offset 4 of \"abc def ghi\" must yield exactly 2 identifiers (def, ghi)"
    );

    // Scan from near end
    let _matches_end: Vec<_> = scanner.find_matches(input, input.len() - 1);
    // May or may not find matches, but shouldn't panic
}

#[test]
fn test_rapid_token_switching() {
    let mut scanner = Scanner::new(ERROR_SCANNER).unwrap();

    // Rapidly alternating token types
    let rapid_switching = "a1b2c3d4e5f6g7h8i9j0".repeat(1000);
    let matches: Vec<_> = scanner.find_matches(&rapid_switching, 0);

    assert!(!matches.is_empty(), "Should handle rapid token switching");

    // Verify alternating pattern
    for (i, m) in matches.iter().enumerate() {
        if i % 2 == 0 {
            assert_eq!(
                m.token_type, 2,
                "Even positions should be identifiers at index {}",
                i
            );
        } else {
            assert_eq!(
                m.token_type, 4,
                "Odd positions should be numbers at index {}",
                i
            );
        }
    }
}

#[test]
fn test_unicode_edge_cases() {
    let mut scanner = Scanner::new(ERROR_SCANNER).unwrap();

    let unicode_cases = vec![
        "café",     // Accented characters
        "🚀rocket", // Emoji
        "𝕳𝖊𝖑𝖑𝖔 x",  // Mathematical alphanumeric symbols
        "Ω≈∞ y",    // Mathematical symbols
        "日本語 z", // CJK characters
    ];

    for case in unicode_cases {
        let matches: Vec<_> = scanner.find_matches(case, 0);
        assert!(!matches.is_empty(), "Should handle Unicode case: {}", case);
    }
}

#[test]
fn test_memory_stress() {
    let mut scanner = Scanner::new(ERROR_SCANNER).unwrap();

    // Create input that could stress memory allocation
    let large_input = format!(
        "{} {} {}",
        "identifier ".repeat(10_000),
        "123 ".repeat(10_000),
        "\"string\" ".repeat(10_000)
    );

    let matches: Vec<_> = scanner.find_matches(&large_input, 0);

    // Verify we got expected number of matches without running out of memory
    // Note that whitespaces contribute to token counts
    assert!(
        matches.len() == 60_000,
        "Should handle large input without memory issues, len was {}",
        matches.len()
    );
}

#[test]
fn match_text_gives_span_token_and_positions() {
    let m = Match::new(1..3, 5);
    assert_eq!(m.to_text(), "[1..3] tok 5");
    let m = Match::new(10..12, 42).with_positions(Some(Positions::new(Position::new(2, 3), Position::new(2, 5))));
    assert_eq!(m.to_text(), "[10..12] tok 42 at 2:3-2:5");
}
