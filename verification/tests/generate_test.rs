use scnr2::character_classes::CharacterClasses;
use scnr2::dfa::Dfa;
use scnr2::dsl::parse_scanner_data;
use scnr2::generate::{build_scanner, to_snake_case};
use scnr2::minimizer::Minimizer;
use scnr2::nfa::Nfa;
use scnr2::pattern::Pattern;
use scnr2::scanner::Scanner;
use scnr2::scanner_data::ScannerData;
use scnr2::types::Transition;

const MODE_SCANNER: &str = r##"
    ModeScanner {
        mode INITIAL {
            token r"\(" => 1;
            token r"\)" => 2;
            token r"[a-z]+" => 3;
            on 1 push INNER;
            on 2 pop;
        }
        mode INNER {
            token r"\)" => 2;
            token r"[0-9]+" => 4;
            on 2 pop;
        }
    }
"##;

fn kinds(input: &str, scanner: &mut Scanner) -> Vec<(String, usize)> {
    scanner.find_matches(input, 0).iter().map(|m| (input[m.span.clone()].to_string(), m.token_type)).collect()
}

#[test]
fn push_then_pop_returns_to_the_pushing_mode() {
    let mut scanner = Scanner::new(MODE_SCANNER).unwrap();
    let ms = kinds("a(12)b", &mut scanner);
    assert_eq!(
        ms,
        vec![("a".to_string(), 3), ("(".to_string(), 1), ("12".to_string(), 4), (")".to_string(), 2), ("b".to_string(), 3)]
    );
    assert_eq!(scanner.current_mode_name(), "INITIAL");
}

#[test]
fn pop_on_empty_stack_stays_in_mode() {
    let mut scanner = Scanner::new(MODE_SCANNER).unwrap();
    let ms = kinds(")a", &mut scanner);
    assert_eq!(ms, vec![(")".to_string(), 2), ("a".to_string(), 3)]);
    assert_eq!(scanner.current_mode_index(), 0);
}

#[test]
fn mode_is_kept_between_scans() {
    let mut scanner = Scanner::new(MODE_SCANNER).unwrap();
    let _ = kinds("(", &mut scanner);
    assert_eq!(scanner.current_mode_name(), "INNER");
    assert_eq!(kinds("7", &mut scanner), vec![("7".to_string(), 4)]);
    assert_eq!(scanner.mode_name(1), Some("INNER".to_string()));
    assert_eq!(scanner.mode_name(9), Some("Unknown".to_string()));
}

#[test]
fn transitions_are_sorted_by_token_type() {
    let data = parse_scanner_data(
        r##"S { mode A { token r"a" => 1; on 8 enter B; on 2 push B; on 8 pop; } mode B { token r"b" => 2; } }"##,
    )
    .unwrap();
    let scanner = build_scanner(&data).unwrap();
    let ts = &scanner.modes[0].transitions;
    assert_eq!(ts.len(), 3);
    assert!(matches!(ts[0], Transition::PushMode(2, 1)));
    assert!(matches!(ts[1], Transition::SetMode(8, 1)));
    assert!(matches!(ts[2], Transition::PopMode(8)));
}

#[test]
fn generated_rows_have_one_entry_per_class() {
    let data = parse_scanner_data(
        r##"Rows { mode INITIAL { token r"[a-z]+" => 1; token r"[0-9]+" => 2; token r"\s" => 3; } }"##,
    )
    .unwrap();
    let scanner = build_scanner(&data).unwrap();
    assert_eq!(scanner.name, "Rows");
    assert_eq!(scanner.module_name, "rows");
    assert_eq!(scanner.dynamic_state_len, 0);
    for state in &scanner.modes[0].dfa.states {
        assert_eq!(state.transitions.len(), scanner.character_class_count);
    }
    let mut s = Scanner::from_generated(scanner);
    assert_eq!(s.match_function('q'), s.match_function('a'));
    assert_ne!(s.match_function('q'), s.match_function('5'));
    assert_eq!(s.match_function('#'), None);
    let ms = s.find_matches("ab 12", 0);
    assert_eq!(ms.iter().map(|m| m.token_type).collect::<Vec<_>>(), vec![1, 3, 2]);
}

#[test]
fn earlier_pattern_wins_on_equal_length() {
    let mut s = Scanner::new(r##"P { mode INITIAL { token r"if" => 1; token r"[a-z]+" => 2; } }"##).unwrap();
    let ms = s.find_matches("if iff", 0);
    assert_eq!(ms.iter().map(|m| m.token_type).collect::<Vec<_>>(), vec![1, 2]);
    assert_eq!(ms[1].span, 3..6);
}

#[test]
fn snake_case_of_scanner_names() {
    assert_eq!(to_snake_case("HelloWorld"), "hello_world");
    assert_eq!(to_snake_case("TestScanner"), "test_scanner");
    assert_eq!(to_snake_case("already_snake"), "already_snake");
    assert_eq!(to_snake_case("ABC"), "a_b_c");
    assert_eq!(to_snake_case("Über"), "über");
}

#[test]
fn scanner_without_modes_is_rejected() {
    let data = ScannerData { name: "Empty".to_string(), states: vec![], modes: vec![] };
    assert_eq!(build_scanner(&data).err().unwrap(), "expected at least one mode");
}

#[test]
fn unknown_mode_is_rejected() {
    let data = parse_scanner_data(r##"S { mode A { token r"a" => 1; on 1 enter NOWHERE; } }"##).unwrap();
    assert_eq!(build_scanner(&data).err().unwrap(), "scanner mode 'NOWHERE' not found");
}

/// The state reached from state 0 on a sequence of class numbers, if any.
fn class_run(dfa: &Dfa, classes: &[usize]) -> Option<usize> {
    let mut q = 0usize;
    for c in classes {
        q = dfa.states[q].transitions.iter().find(|t| t.elementary_interval_index == *c)?.target;
    }
    Some(q)
}

#[test]
fn minimization_keeps_what_is_accepted() {
    let pattern = Pattern::new(r"(A*B|AC)D".to_string(), 0);
    let mut nfa = Nfa::build(&pattern).unwrap();
    let mut cc = CharacterClasses::new();
    nfa.collect_character_classes(&mut cc);
    cc.create_disjoint_character_classes();
    nfa.convert_to_disjoint_character_classes(&cc);
    let dfa = Dfa::try_from_nfa_not_minimized(&nfa).unwrap();
    let class_of = |c: char| cc.intervals.iter().position(|g| g.iter().any(|(a, b)| *a <= c && c <= *b)).unwrap();
    let words = ["ABD", "AABD", "ACD", "BD", "AD", "AC", "AACD", ""];
    let runs: Vec<Vec<usize>> = words.iter().map(|w| w.chars().map(class_of).collect()).collect();
    let before: Vec<bool> = runs
        .iter()
        .map(|r| class_run(&dfa, r).map_or(false, |q| !dfa.states[q].accepts.is_empty()))
        .collect();
    let min = Minimizer::minimize(dfa);
    let after: Vec<bool> = runs
        .iter()
        .map(|r| class_run(&min, r).map_or(false, |q| !min.states[q].accepts.is_empty()))
        .collect();
    assert_eq!(before, vec![true, true, true, true, false, false, false, false]);
    assert_eq!(before, after);
}

#[test]
fn scanner_from_lexed_tokens() {
    let toks = scnr2::tokens::lex(r##"P { mode INITIAL { token r"if" => 1; token r"[a-z]+" => 2; } }"##).unwrap();
    let mut s = Scanner::from_tokens(&toks).unwrap();
    let ms = s.find_matches("if x", 0);
    assert_eq!(ms.iter().map(|m| m.token_type).collect::<Vec<_>>(), vec![1, 2]);
}

#[test]
fn scanner_errors_name_their_stage() {
    let parse = Scanner::new(r##"P { }"##).err().unwrap();
    assert!(parse.starts_with("Failed to parse scanner definition: "));
    let build = Scanner::new(r##"P { mode INITIAL { token r"(" => 1; } }"##).err().unwrap();
    assert!(build.starts_with("Failed to build scanner modes: "));
    let unknown = Scanner::new(r##"P { mode INITIAL { token r"a" => 1; on 1 enter NOWHERE; } }"##).err().unwrap();
    assert!(unknown.starts_with("Failed to build scanner modes: "));
}

#[test]
fn scanner_with_runtime_state_builds() {
    let mut s = Scanner::new(
        r####"R { state n: count(0..=4); mode INITIAL { token r"r" + capture("#", n) + r#"""# => 1; token r#"""# + validate("#", n) => 2; token r"." => 99; } }"####,
    )
    .unwrap();
    let ms = s.find_matches(r##"r#"x"#"##, 0);
    assert_eq!(ms.iter().map(|m| m.token_type).collect::<Vec<_>>(), vec![1, 99, 2]);
}

#[test]
fn build_scanner_of_the_generator_example() {
    let data = parse_scanner_data(
        r####"TestScanner {
            mode INITIAL {
                token r"\r\n|\r|\n" => 1;
                token r"[\s--\r\n]+" => 2;
                token r"//.*(\r\n|\r|\n)?" => 3;
                token r"/\*([^*]|\*[^/])*\*/" => 4;
                token r#"""# => 8;
                token r"Hello" => 9;
                token r"World" => 10;
                token r"World" followed by r"!" => 11;
                token r"!" not followed by r"!" => 12;
                token r"[a-zA-Z_]\w*" => 13;
                token r"." => 14;

                on 8 enter STRING;
            }
            mode STRING {
                token r#"\\[\"\\bfnt]"# => 5;
                token r"\\[\s--\r\n]*\r?\n" => 6;
                token r#"[^\"\\]+"# => 7;
                token r#"""# => 8;
                token r"." => 14;

                on 8 enter INITIAL;
            }
        }"####,
    )
    .unwrap();
    let scanner = build_scanner(&data).unwrap();
    assert_eq!(scanner.name, "TestScanner");
    assert_eq!(scanner.module_name, "test_scanner");
    assert!(!scanner.with_dynamic_state);
    assert_eq!(scanner.dynamic_state_len, 0);
    assert_eq!(scanner.modes.len(), 2);
    assert_eq!(scanner.modes[0].name, "INITIAL");
    assert_eq!(scanner.modes[1].name, "STRING");
    assert_eq!(scanner.modes[0].transitions.len(), 1);
    assert!(matches!(scanner.modes[0].transitions[0], Transition::SetMode(8, 1)));
    assert_eq!(scanner.modes[1].transitions.len(), 1);
    assert!(matches!(scanner.modes[1].transitions[0], Transition::SetMode(8, 0)));
    let mut s = Scanner::from_generated(scanner);
    let ms = s.find_matches("Hello World!", 0);
    assert_eq!(ms.iter().map(|m| m.token_type).collect::<Vec<_>>(), vec![9, 2, 10, 12]);
}

#[test]
fn build_scanner_of_the_dynamic_state_example() {
    let data = parse_scanner_data(
        r####"TestScanner {
            state n: count(0..=4);
            mode INITIAL {
                token r"r" + capture("#", n) + r#"""# => 1;
                token r#"""# + validate("#", n) => 2;
                token r"." => 99;
            }
        }"####,
    )
    .unwrap();
    let scanner = build_scanner(&data).unwrap();
    assert_eq!(scanner.name, "TestScanner");
    assert_eq!(scanner.module_name, "test_scanner");
    assert!(scanner.with_dynamic_state);
    assert_eq!(scanner.dynamic_state_len, 1);
    assert_eq!(scanner.modes.len(), 1);
    assert_eq!(scanner.modes[0].name, "INITIAL");
    assert_eq!(scanner.modes[0].transitions.len(), 0);
    assert_eq!(scanner.character_class_count, 4);
    for state in &scanner.modes[0].dfa.states {
        assert_eq!(state.transitions.len(), 4);
    }
}
