use scnr2::character_classes::CharacterClasses;
use scnr2::character_classes::CharacterClassKind;
use scnr2::nfa::{CharacterClassType, Nfa};
use scnr2::pattern::{Lookahead, Pattern};
use scnr2::regex_ast::{parse_regex, RegexAst};

#[test]
fn test_nfa_from_hir() {
    let ast = parse_regex(r"\d").unwrap();
    let nfa = Nfa::try_from_ast(&ast).unwrap();
    assert_eq!(nfa.states.len(), 2);
    assert_eq!(nfa.start_state, 0);
    assert_eq!(nfa.end_state, 1);
    assert!(!nfa.is_empty());
}

#[test]
fn test_nfa_build() {
    let pattern = Pattern::new(r"\d{4}-\d{2}-\d{2}".to_string(), 1);
    let nfa = Nfa::build(&pattern).unwrap();
    assert_eq!(nfa.pattern, pattern.pattern);
    assert!(!nfa.is_empty());
    assert_eq!(nfa.start_state, 0);
    assert_eq!(nfa.end_state, 19);
    assert_eq!(nfa.states.len(), 20);
}

#[test]
fn test_nfa_build_with_positive_lookahead() {
    let lookahead = Lookahead::positive(r"\w+".to_string()).unwrap();
    let pattern = Pattern::new(r"\d{4}-\d{2}-\d{2}".to_string(), 1).with_lookahead(lookahead);
    let nfa = Nfa::build(&pattern).unwrap();
    assert!(!nfa.is_empty());
    assert_eq!(nfa.states.len(), 20);
    assert_eq!(nfa.start_state, 0);
    assert_eq!(nfa.end_state, 19);
    assert!(nfa.states[19].accept_data.is_some());
    assert!(matches!(nfa.states[19].accept_data.as_ref().unwrap().lookahead, Lookahead::Positive(_)));
}

#[test]
fn test_nfa_build_with_negative_lookahead() {
    let lookahead = Lookahead::negative(r"\w+".to_string()).unwrap();
    let pattern = Pattern::new(r"\d{4}-\d{2}-\d{2}".to_string(), 1).with_lookahead(lookahead);
    let nfa = Nfa::build(&pattern).unwrap();
    assert!(!nfa.is_empty());
    assert_eq!(nfa.states.len(), 20);
    assert_eq!(nfa.start_state, 0);
    assert_eq!(nfa.end_state, 19);
    assert!(nfa.states[19].accept_data.is_some());
    assert!(matches!(nfa.states[19].accept_data.as_ref().unwrap().lookahead, Lookahead::Negative(_)));
}

#[test]
fn test_nfa_build_from_patterns() {
    let patterns = vec![
        Pattern::new(r"\d{4}-\d{2}-\d{2}".to_string(), 1),
        Pattern::new(r"\w+".to_string(), 2),
    ];
    let nfa = Nfa::build_from_patterns(&patterns).unwrap();
    assert!(!nfa.is_empty());
    assert_eq!(nfa.states.len(), 28);
    let a = nfa.states[19].accept_data.as_ref().unwrap();
    assert_eq!(a.pattern, r"\d{4}-\d{2}-\d{2}");
    assert_eq!(a.terminal_type, 1);
    assert_eq!(a.priority, 0);
    assert!(matches!(a.lookahead, Lookahead::Absent));
    assert!(a.dynamic.is_none());
    let b = nfa.states[25].accept_data.as_ref().unwrap();
    assert_eq!(b.pattern, r"\w+");
    assert_eq!(b.terminal_type, 2);
    assert_eq!(b.priority, 1);
    assert!(matches!(b.lookahead, Lookahead::Absent));
    assert!(b.dynamic.is_none());
    assert!(nfa.states.iter().filter(|s| s.accept_data.is_some()).count() >= patterns.len());
    let mut terminals = nfa
        .states
        .iter()
        .filter_map(|s| s.accept_data.as_ref().map(|ad| ad.terminal_type))
        .collect::<Vec<_>>();
    terminals.sort();
    terminals.dedup();
    assert!(patterns.iter().all(|p| terminals.contains(&p.terminal_type)));
}

fn disjoint_classes(regex: &str) -> Vec<Vec<(char, char)>> {
    let mut character_classes = CharacterClasses::new();
    let ast = parse_regex(regex).unwrap();
    let mut nfa = Nfa::try_from_ast(&ast).unwrap();
    nfa.collect_character_classes(&mut character_classes);
    character_classes.create_disjoint_character_classes();
    nfa.convert_to_disjoint_character_classes(&character_classes);
    character_classes.intervals
}

#[test]
fn test_create_disjoint_character_classes_c1() {
    assert_eq!(disjoint_classes(r"[a-f][0-9a-f]"), vec![vec![('0', '9')], vec![('a', 'f')]]);
}

#[test]
fn test_create_disjoint_character_classes_c2() {
    assert_eq!(disjoint_classes(r"[a-f]"), vec![vec![('a', 'f')]]);
}

#[test]
fn test_create_disjoint_character_classes_c3() {
    assert_eq!(
        disjoint_classes(r"[0-9]+(_[0-9]+)*\.[0-9]+(_[0-9]+)*[eE][+-]?[0-9]+(_[0-9]+)*"),
        vec![
            vec![('+', '+'), ('-', '-')],
            vec![('.', '.')],
            vec![('0', '9')],
            vec![('E', 'E'), ('e', 'e')],
            vec![('_', '_')],
        ]
    );
}

#[test]
fn test_create_disjoint_character_classes_c4() {
    assert_eq!(
        disjoint_classes(r"[\s--\r\n]+"),
        vec![vec![
            ('\t', '\t'),
            ('\u{b}', '\u{c}'),
            (' ', ' '),
            ('\u{85}', '\u{85}'),
            ('\u{a0}', '\u{a0}'),
            ('\u{1680}', '\u{1680}'),
            ('\u{2000}', '\u{200a}'),
            ('\u{2028}', '\u{2029}'),
            ('\u{202f}', '\u{202f}'),
            ('\u{205f}', '\u{205f}'),
            ('\u{3000}', '\u{3000}'),
        ]]
    );
}

#[test]
fn test_create_disjoint_character_classes_c5() {
    assert_eq!(
        disjoint_classes(r"\+=|-=|\*=|/=|%=|&=|\\|=|\^=|<<=|>>=|<<<=|>>>="),
        vec![
            vec![('%', '%')],
            vec![('&', '&')],
            vec![('*', '*')],
            vec![('+', '+')],
            vec![('-', '-')],
            vec![('/', '/')],
            vec![('<', '<')],
            vec![('=', '=')],
            vec![('>', '>')],
            vec![('\\', '\\')],
            vec![('^', '^')],
        ]
    );
}

#[test]
fn build_from_ast_accepts_supported_expressions() {
    let pattern = Pattern::new("ab*".to_string(), 3);
    let ast = RegexAst::Concat(vec![
        RegexAst::Literal(b"a".to_vec()),
        RegexAst::Repetition { min: 0, max: None, greedy: true, sub: Box::new(RegexAst::Literal(b"b".to_vec())) },
    ]);
    let nfa = Nfa::build_from_ast(&pattern, &ast).unwrap();
    // "a" has two states, "b*" the two of "b" and two more.
    assert_eq!(nfa.states.len(), 6);
    let end = &nfa.states[nfa.end_state];
    assert_eq!(end.accept_data.as_ref().unwrap().terminal_type, 3);
    let accepting = nfa.states.iter().filter(|s| s.accept_data.is_some()).count();
    assert_eq!(accepting, 1);
}

#[test]
fn build_from_ast_refuses_unsupported_expressions() {
    let pattern = Pattern::new("x".to_string(), 0);
    let look = RegexAst::Look("WordAscii".to_string());
    assert!(Nfa::build_from_ast(&pattern, &look).is_err());
    let lazy = RegexAst::Repetition { min: 1, max: None, greedy: false, sub: Box::new(RegexAst::Literal(b"a".to_vec())) };
    match Nfa::build_from_ast(&pattern, &lazy) {
        Err(err) => assert!(err.contains("non-greedy")),
        Ok(_) => panic!("a non-greedy repetition is refused"),
    }
    let bad_utf8 = RegexAst::Literal(vec![0xff]);
    assert!(Nfa::try_from_ast(&bad_utf8).is_err());
}

#[test]
fn bounded_repetition_builds_optional_copies() {
    // a{1,3}: one copy of "a" (2 states), then two optional copies (3 states each).
    let ast = RegexAst::Repetition { min: 1, max: Some(3), greedy: true, sub: Box::new(RegexAst::Literal(b"a".to_vec())) };
    let nfa = Nfa::try_from_ast(&ast).unwrap();
    assert_eq!(nfa.states.len(), 8);
}

/// Whether the automaton, read character by character from its start state
/// with epsilon transitions, can end in its end state.
fn nfa_accepts(nfa: &Nfa, word: &str) -> bool {
    fn close(nfa: &Nfa, set: &mut Vec<usize>) {
        let mut k = 0;
        while k < set.len() {
            let s = set[k];
            for t in &nfa.states[s].transitions {
                if t.character_class.is_none() && !set.contains(&t.target) {
                    set.push(t.target);
                }
            }
            k += 1;
        }
    }
    fn reads(class: &CharacterClassType, c: char) -> bool {
        match class {
            CharacterClassType::Kind(CharacterClassKind::Literal(x)) => *x == c,
            CharacterClassType::Kind(CharacterClassKind::Ranges(rs)) => rs.iter().any(|&(lo, hi)| lo <= c && c <= hi),
            CharacterClassType::Range(rs, _) => rs.iter().any(|&(lo, hi)| lo <= c && c <= hi),
        }
    }
    let mut set = vec![nfa.start_state];
    close(nfa, &mut set);
    for c in word.chars() {
        let mut next = Vec::new();
        for &s in &set {
            for t in &nfa.states[s].transitions {
                if let Some(class) = &t.character_class {
                    if reads(class, c) && !next.contains(&t.target) {
                        next.push(t.target);
                    }
                }
            }
        }
        close(nfa, &mut next);
        set = next;
    }
    set.contains(&nfa.end_state)
}

#[test]
fn automaton_accepts_exactly_the_words_of_the_expression() {
    let ast = parse_regex(r"(ab|c)*d{1,2}").unwrap();
    let nfa = Nfa::try_from_ast(&ast).unwrap();
    for word in ["d", "dd", "abd", "cd", "abcabdd", "ccd"] {
        assert!(nfa_accepts(&nfa, word), "{word} is a word of the expression");
    }
    for word in ["", "ddd", "ab", "abcd_", "ad", "bd", "dab"] {
        assert!(!nfa_accepts(&nfa, word), "{word} is no word of the expression");
    }
}

#[test]
fn automaton_of_classes_and_bounded_repetitions() {
    let ast = parse_regex(r"[a-c]{2,3}x?").unwrap();
    let nfa = Nfa::try_from_ast(&ast).unwrap();
    for word in ["ab", "abc", "cbx", "aaax"] {
        assert!(nfa_accepts(&nfa, word), "{word} is a word of the expression");
    }
    for word in ["a", "abcd", "abca", "x", "abxx"] {
        assert!(!nfa_accepts(&nfa, word), "{word} is no word of the expression");
    }
}

#[test]
fn alternation_on_the_empty_automaton_keeps_only_the_next_alternative() {
    // The automaton of an alternation starts as that of the empty expression;
    // joining an alternative to it gives that alternative's automaton, so an
    // empty first alternative does not contribute the empty word.
    let ast = RegexAst::Alternation(vec![RegexAst::Empty, RegexAst::Literal(b"a".to_vec())]);
    let nfa = Nfa::try_from_ast(&ast).unwrap();
    assert!(nfa_accepts(&nfa, "a"));
    assert!(!nfa_accepts(&nfa, ""));
    // With the empty alternative last, both are kept.
    let ast = RegexAst::Alternation(vec![RegexAst::Literal(b"a".to_vec()), RegexAst::Empty]);
    let nfa = Nfa::try_from_ast(&ast).unwrap();
    assert!(nfa_accepts(&nfa, "a"));
    assert!(nfa_accepts(&nfa, ""));
}

#[test]
fn parse_errors_carry_the_parser_message() {
    let error = match parse_regex("a(b") {
        Err(e) => e,
        Ok(_) => panic!("an unclosed group does not parse"),
    };
    assert!(error.contains("unclosed group"), "{error}");
    let pattern = Pattern::new("a(b".to_string(), 1);
    match Nfa::build(&pattern) {
        Err(e) => assert_eq!(e, error),
        Ok(_) => panic!("an unclosed group builds no automaton"),
    }
    assert!(parse_regex("a(b)").is_ok());
}

#[test]
fn test_disjoint_split_partitions_elementary_intervals() {
    let mut character_classes = CharacterClasses::new();
    let ast = parse_regex(r"[a-f][0-9a-f][c-z]").unwrap();
    let nfa = Nfa::try_from_ast(&ast).unwrap();
    nfa.collect_character_classes(&mut character_classes);
    character_classes.create_disjoint_character_classes();
    for iv in character_classes.elementary_intervals.iter() {
        let holders = character_classes.intervals.iter().filter(|g| g.contains(iv)).count();
        assert_eq!(holders, 1);
    }
    for class in character_classes.classes.iter() {
        for iv in character_classes.elementary_intervals.iter() {
            let listed = class.intervals.iter().any(|&j| character_classes.intervals[j].contains(iv));
            assert_eq!(listed, class.characters.contains_interval(iv.0, iv.1));
        }
    }
    assert_eq!(
        character_classes.intervals,
        vec![vec![('0', '9')], vec![('a', 'b')], vec![('c', 'f')], vec![('g', 'z')]]
    );
}
