use scnr2::dsl::{parse_scanner_data, parse_scanner_data_with};
use scnr2::pattern::Lookahead;
use scnr2::scanner::Scanner;
use scnr2::scanner_data::TransitionToNamedMode;

const HELLO_WORLD: &str = r####"
    HelloWorld {
        mode INITIAL {
            token r"\r\n|\r|\n" => 1;
            token r"[\s--\r\n]+" => 2;
            token r"//.*(\r\n|\r|\n)?" => 3;
            token r"/\*([^*]|\*[^/])*\*/" => 4;
            token r#"""# => 8;
            token r"Hello" => 9;
            token r"World" => 10;
            token r"World" followed by r"!" => 11;
            token r"!" not followed by r"!" => 12;
            token r"[a-zA-Z_]\w*" => 13;
            token r"." => 14;

            on 8 enter STRING;
        }
        mode STRING {
            token r#"\\[\"\\bfnt]"# => 5;
            token r"\\[\s--\n\r]*\r?\n" => 6;
            token r#"[^\"\]+"# => 7;
            token r#"""# => 8;
            token r"." => 14;

            on 8 enter INITIAL;
        }
    }
"####;

fn is_positive(l: &Lookahead, expected: &str) -> bool {
    matches!(l, Lookahead::Positive(p) if p == expected)
}

fn is_negative(l: &Lookahead, expected: &str) -> bool {
    matches!(l, Lookahead::Negative(p) if p == expected)
}

#[test]
fn test_parse_scanner_data() {
    let scanner_data = parse_scanner_data(HELLO_WORLD).unwrap();
    assert_eq!(scanner_data.name, "HelloWorld");
    assert_eq!(scanner_data.modes.len(), 2);
    let mode_initial = &scanner_data.modes[0];
    assert_eq!(mode_initial.name, "INITIAL");
    assert_eq!(mode_initial.patterns.len(), 11);
    assert_eq!(mode_initial.transitions.len(), 1);
    assert!(matches!(&mode_initial.transitions[0], TransitionToNamedMode::SetMode(8, m) if m == "STRING"));
    let p = &mode_initial.patterns;
    assert_eq!(p[0].pattern, r"\r\n|\r|\n");
    assert_eq!(p[1].pattern, r"[\s--\r\n]+");
    assert_eq!(p[2].pattern, r"//.*(\r\n|\r|\n)?");
    assert_eq!(p[3].pattern, r"/\*([^*]|\*[^/])*\*/");
    assert_eq!(p[4].pattern, r#"""#);
    assert_eq!(p[5].pattern, r"Hello");
    assert_eq!(p[6].pattern, r"World");
    assert_eq!(p[7].pattern, r"World");
    assert_eq!(p[8].pattern, r"!");
    assert_eq!(p[9].pattern, r"[a-zA-Z_]\w*");
    assert_eq!(p[10].pattern, r".");
    let types: Vec<usize> = p.iter().map(|x| x.terminal_type).collect();
    assert_eq!(types, vec![1, 2, 3, 4, 8, 9, 10, 11, 12, 13, 14]);
    for (i, x) in p.iter().enumerate() {
        match i {
            7 => assert!(is_positive(&x.lookahead, "!")),
            8 => assert!(is_negative(&x.lookahead, "!")),
            _ => assert!(matches!(x.lookahead, Lookahead::Absent)),
        }
    }

    let mode_string = &scanner_data.modes[1];
    assert_eq!(mode_string.name, "STRING");
    assert_eq!(mode_string.patterns.len(), 5);
    assert_eq!(mode_string.transitions.len(), 1);
    assert!(matches!(&mode_string.transitions[0], TransitionToNamedMode::SetMode(8, m) if m == "INITIAL"));
    let q = &mode_string.patterns;
    assert_eq!(q[0].pattern, r#"\\[\"\\bfnt]"#);
    assert_eq!(q[1].pattern, r"\\[\s--\n\r]*\r?\n");
    assert_eq!(q[2].pattern, r#"[^\"\]+"#);
    assert_eq!(q[3].pattern, r#"""#);
    assert_eq!(q[4].pattern, r".");
    let types: Vec<usize> = q.iter().map(|x| x.terminal_type).collect();
    assert_eq!(types, vec![5, 6, 7, 8, 14]);
    assert!(q.iter().all(|x| matches!(x.lookahead, Lookahead::Absent)));
}

fn build_error(definition: &str) -> String {
    let data = parse_scanner_data(definition).unwrap();
    data.build_scanner_modes().err().unwrap()
}

fn parse_error(definition: &str) -> String {
    parse_scanner_data(definition).err().unwrap()
}

#[test]
fn test_dynamic_state_rejects_undeclared_state() {
    let error = build_error(r##"BadScanner { mode INITIAL { token capture("#", n) => 1; } }"##);
    assert!(error.contains("not declared"));
}

#[test]
fn test_dynamic_state_rejects_type_mismatch() {
    let error = build_error(
        r##"BadScanner { state marker: str(r"[A-Z]+"); mode INITIAL { token capture("#", marker) => 1; } }"##,
    );
    assert!(error.contains("declared as str"));
}

#[test]
fn test_dynamic_state_rejects_open_ended_range() {
    let error =
        parse_error(r##"BadScanner { state n: count(0..=4); mode INITIAL { token validate("#", n, ..n) => 1; } }"##);
    assert!(error.contains("open-ended"));
}

#[test]
fn test_dynamic_state_rejects_capturing_groups() {
    let error = build_error(
        r##"BadScanner { state n: count(0..=4); mode INITIAL { token r"(ab)+" + capture("#", n) => 1; } }"##,
    );
    assert!(error.contains("capturing groups"));
}

#[test]
fn test_dynamic_state_rejects_duplicate_state_ops() {
    let error = parse_error(
        r##"BadScanner { state n: count(0..=4); mode INITIAL { token capture("#", n) + validate("#", n) => 1; } }"##,
    );
    assert!(error.contains("only one capture() or validate()"));
}

#[test]
fn test_dynamic_state_rejects_duplicate_state_declaration() {
    let error = parse_error(
        r##"BadScanner { state n: count(0..=4); state n: count(0..=8); mode INITIAL { token r"." => 99; } }"##,
    );
    assert!(error.contains("declared more than once"));
}

#[test]
fn dynamic_state_dsl_errors() {
    let cases = [
        r##"BadScanner { state n: count(0..=4); state n: count(0..=8); mode INITIAL { token r"." => 99; } }"##,
        r##"BadScanner { state n: count(0..=4); mode INITIAL { token capture("#", n) + validate("#", n) => 1; } }"##,
        r##"BadScanner { state n: count(0..=4); mode INITIAL { token validate("#", n, ..n) => 1; } }"##,
        r##"BadScanner { state marker: str(r"[A-Z]+"); mode INITIAL { token capture("#", marker) => 1; } }"##,
        r##"BadScanner { mode INITIAL { token capture("#", n) => 1; } }"##,
    ];
    for case in cases {
        assert!(Scanner::new(case).is_err(), "must be rejected: {case}");
    }
}

#[test]
fn test_dynamic_state_dsl_reports_feature_error_when_disabled() {
    let input = r##"DisabledScanner { state n: count(0..=4); mode INITIAL { token r"." => 99; } }"##;
    let error = parse_scanner_data_with(input, false).err().unwrap();
    assert!(error.contains("dynamic-state"));

    let input = r##"DisabledScanner { mode INITIAL { token capture("#", n) => 1; } }"##;
    let error = parse_scanner_data_with(input, false).err().unwrap();
    assert!(error.contains("dynamic-state"));
}

#[test]
fn dynamic_state_off_dsl_errors() {
    let cases = [
        r##"DisabledScanner { mode INITIAL { token capture("#", n) => 1; } }"##,
        r##"DisabledScanner { state n: count(0..=4); mode INITIAL { token r"." => 99; } }"##,
    ];
    for case in cases {
        assert!(parse_scanner_data_with(case, false).is_err(), "must be rejected: {case}");
    }
}
