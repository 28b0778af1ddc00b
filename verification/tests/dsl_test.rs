use scnr2::dsl::parse_scanner_data;
use scnr2::dynamic::StateType;
use scnr2::pattern::PatternDynamic;

fn parse_error(definition: &str) -> String {
    parse_scanner_data(definition).err().unwrap()
}

#[test]
fn count_ranges_are_read_inclusive_and_exclusive() {
    let data = parse_scanner_data(
        r##"S { state a: count(0..=4); state b: count(2..5); state c: str(r"[A-Z]+"); mode M { token r"." => 1; } }"##,
    )
    .unwrap();
    assert_eq!(data.states.len(), 3);
    assert!(matches!(data.states[0].state_type, StateType::Count { min: 0, max: 4 }));
    assert!(matches!(data.states[1].state_type, StateType::Count { min: 2, max: 4 }));
    assert!(matches!(&data.states[2].state_type, StateType::Str { pattern } if pattern == "[A-Z]+"));
    assert_eq!((data.states[0].index, data.states[1].index, data.states[2].index), (0, 1, 2));
}

#[test]
fn integer_literals_are_read_in_any_base() {
    let data = parse_scanner_data(r##"S { mode M { token r"a" => 0x10; token r"b" => 8usize; token r"c" => 1_0; } }"##).unwrap();
    let types: Vec<usize> = data.modes[0].patterns.iter().map(|p| p.terminal_type).collect();
    assert_eq!(types, vec![16, 8, 10]);
}

#[test]
fn joined_segments_keep_their_regex_and_operation() {
    let data = parse_scanner_data(
        r##"S { state n: count(0..=3); mode M { token r"r" + capture("#", n) + r#"""# => 1; token "x" => 2; } }"##,
    )
    .unwrap();
    let p = &data.modes[0].patterns[0];
    assert_eq!(p.pattern, "r\"");
    assert!(matches!(&p.dynamic, Some(PatternDynamic::Unresolved(u)) if u.segments.len() == 3));
    assert!(data.modes[0].patterns[1].dynamic.is_none());
    assert_eq!(data.modes[0].patterns[1].pattern, "x");
}

#[test]
fn malformed_descriptions_are_rejected_with_their_reason() {
    let cases = [
        (r##"S { other; }"##, "expected 'state' or 'mode'"),
        (r##"S { mode M { foo r"a" => 1; } }"##, "expected 'token' or 'transition'"),
        (r##"S { mode M { token r"a" => 1; on 1 jump M; } }"##, "expected 'enter', 'push' or 'pop'"),
        (r##"S { mode M { token r"a" => 1; on 1 pop } }"##, "expected ';'"),
        (r##"S { state n: count(4..4); mode M { token r"a" => 1; } }"##, "state range must satisfy min < max"),
        (r##"S { state n: count(5..=4); mode M { token r"a" => 1; } }"##, "state range must satisfy min <= max"),
        (r##"S { state n: count(x..4); mode M { token r"a" => 1; } }"##, "state range must use literal integers only"),
        (r##"S { state n: count(0..=4 5); mode M { token r"a" => 1; } }"##, "unexpected tokens in count state range"),
        (r##"S { state n: str("a", "b"); mode M { token r"a" => 1; } }"##, "str state takes exactly one regex pattern"),
        (r##"S { state n: list(1); mode M { token r"a" => 1; } }"##, "expected 'count' or 'str'"),
        (r##"S { state n: count(0..=4); mode M { token capture("#", n, 1) => 1; } }"##, "capture() takes exactly 2 arguments"),
        (r##"S { state n: count(0..=4); mode M { token validate("#", n, n, n) => 1; } }"##, "validate() takes 2 or 3 arguments"),
        (r##"S { state n: count(0..=4); mode M { token capture("", n) => 1; } }"##, "count capture/validate pattern cannot be empty"),
        (r##"S { state n: count(0..=4); mode M { token "a" capture("#", n) => 1; } }"##, "capture()/validate() segments must be joined with `+`"),
        (r##"S { mode M { token 5 => 1; } }"##, "expected a string literal or capture()/validate()"),
        (r##"S { mode M { token "a" => 99999999999999999999999; } }"##, "number too large to fit in target type"),
        (r##"S { state n: count(0..=4); mode M { token validate("#", n, 2) => 1; } }"##, "constraint expression must be 'n', a literal, or simple arithmetic"),
        (r##"S { state n: count(0..=4); mode M { token validate("#", n, m..n) => 1; } }"##, "constraint expression must be 'n', a literal, or simple arithmetic"),
        (r##"S { state n: count(0..=4); mode M { token validate("#", n, 0..) => 1; } }"##, "open-ended ranges (..n or n..) are not supported"),
        (r##"S { mode M { token "a" followed on "b" => 1; } }"##, "expected 'by'"),
        (r##"S { mode M { token "a" followed "b" => 1; } }"##, "expected identifier `by`"),
        (r##"S { mode M { token "a" not by "b" => 1; } }"##, "expected 'followed'"),
        (r##"S { }"##, "expected at least one mode"),
    ];
    for (definition, expected) in cases {
        assert_eq!(parse_error(definition), expected, "for {definition}");
    }
}

#[test]
fn lookahead_with_a_broken_expression_is_rejected() {
    let error = parse_error(r##"S { mode M { token "a" followed by "(" => 1; } }"##);
    assert!(error.starts_with("Failed to create positive lookahead: Failed to create NFA from regex pattern: "));
    let error = parse_error(r##"S { mode M { token "a" not followed by "[" => 1; } }"##);
    assert!(error.starts_with("Failed to create negative lookahead: Failed to create NFA from regex pattern: "));
}

#[test]
fn string_literal_escapes_are_resolved() {
    let data = parse_scanner_data(r##"S { mode M { token "\\d\"" => 1; token r#"a"b"# => 2; } }"##).unwrap();
    assert_eq!(data.modes[0].patterns[0].pattern, "\\d\"");
    assert_eq!(data.modes[0].patterns[1].pattern, "a\"b");
}
