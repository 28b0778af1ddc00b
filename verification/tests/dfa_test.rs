use scnr2::character_classes::CharacterClasses;
use scnr2::dfa::{Dfa, DfaState};
use scnr2::minimizer::Minimizer;
use scnr2::nfa::Nfa;
use scnr2::pattern::{Lookahead, Pattern};

#[test]
fn test_dfa_from_nfa() {
    let patterns = vec![
        Pattern::new(r"\r\n|\r|\n".to_string(), 1).with_lookahead(Lookahead::positive("!".to_string()).unwrap()),
        Pattern::new(r"[\s--\r\n]+".to_string(), 2),
        Pattern::new(r#","#.to_string(), 5),
        Pattern::new(r"0|[1-9][0-9]*".to_string(), 6),
    ];
    let mut nfa = Nfa::build_from_patterns(&patterns).unwrap();
    let mut character_classes = CharacterClasses::new();
    nfa.collect_character_classes(&mut character_classes);
    character_classes.create_disjoint_character_classes();
    nfa.convert_to_disjoint_character_classes(&character_classes);

    let dfa = Dfa::try_from_nfa(&nfa).expect("Failed to convert NFA to DFA");
    assert_eq!(dfa.states.len(), 7, "DFA should have states");

    let mut terminals = dfa
        .states
        .iter()
        .flat_map(|s| s.accepts.iter().map(|ad| ad.terminal_type))
        .collect::<Vec<_>>();
    terminals.sort();
    terminals.dedup();
    assert!(
        patterns.iter().all(|p| terminals.contains(&p.terminal_type)),
        "DFA should have accepting states for all patterns"
    );
}

fn example_nfa() -> (Nfa, CharacterClasses) {
    let pattern = Pattern::new(r"(A*B|AC)D".to_string(), 0);
    let mut nfa = Nfa::build(&pattern).unwrap();
    let mut character_classes = CharacterClasses::new();
    nfa.collect_character_classes(&mut character_classes);
    character_classes.create_disjoint_character_classes();
    nfa.convert_to_disjoint_character_classes(&character_classes);
    (nfa, character_classes)
}

#[test]
fn test_calculate_initial_partition() {
    let pattern = Pattern::new(r"(A*B|AC)D".to_string(), 0);
    let mut nfa = Nfa::build(&pattern).unwrap();
    assert_eq!(nfa.start_state, 9);
    assert_eq!(nfa.end_state, 12);
    assert_eq!(nfa.states.len(), 13);
    let accepting_states = nfa.states.iter().filter(|s| s.accept_data.is_some()).count();
    assert_eq!(accepting_states, 1);

    let mut character_classes = CharacterClasses::new();
    nfa.collect_character_classes(&mut character_classes);
    assert_eq!(character_classes.classes.len(), 4);

    character_classes.create_disjoint_character_classes();
    assert_eq!(character_classes.intervals.len(), 4);

    nfa.convert_to_disjoint_character_classes(&character_classes);
    assert_eq!(nfa.states.len(), 13);
    let transition_count = nfa.states.iter().map(|s| s.transitions.len()).sum::<usize>();
    assert_eq!(transition_count, 15);

    let dfa = Dfa::try_from_nfa_not_minimized(&nfa).unwrap();
    assert_eq!(dfa.states.len(), 6);
    let accepting_states = dfa.states.iter().filter(|s| !s.accepts.is_empty()).count();
    assert_eq!(accepting_states, 1);

    let partition = Minimizer::calculate_initial_partition(&dfa);
    assert_eq!(partition.len(), 2);
}

#[test]
fn test_calculate_new_partition() {
    let (nfa, _) = example_nfa();
    let dfa = Dfa::try_from_nfa_not_minimized(&nfa).unwrap();
    let initial_partition = Minimizer::calculate_initial_partition(&dfa);
    let transitions = Minimizer::calculate_transitions(&dfa);
    assert!(!transitions.is_empty());
    assert_eq!(transitions.len(), 6);
    let new_partition = Minimizer::calculate_new_partition(&initial_partition, &transitions);
    assert_eq!(new_partition.len(), 4);
}

#[test]
fn test_minimize_dfa() {
    let (nfa, _) = example_nfa();
    let dfa = Dfa::try_from_nfa_not_minimized(&nfa).unwrap();
    assert_eq!(dfa.states.len(), 6);
    let minimized_dfa = Minimizer::minimize(dfa);
    assert_eq!(minimized_dfa.states.len(), 5);
    let accepting_states = minimized_dfa.states.iter().filter(|s| !s.accepts.is_empty()).count();
    assert_eq!(accepting_states, 1);
    assert!(!minimized_dfa.states[4].accepts.is_empty());
}

#[test]
fn test_initial_partition_distinguishes_accept_sets() {
    let p1 = Pattern::new("a".to_string(), 1);
    let p2 = Pattern::new("b".to_string(), 2);
    let mut s0 = DfaState::new();
    s0.accepts = vec![p1.duplicate()];
    let mut s1 = DfaState::new();
    s1.accepts = vec![p1.duplicate(), p2.duplicate()];
    let dfa = Dfa { states: vec![s0, s1] };
    let partition = Minimizer::calculate_initial_partition(&dfa);
    assert_eq!(partition.len(), 2);
    assert!(partition.iter().all(|g| g.len() == 1));
}

/// The group of the disjoint character classes that holds `c`.
fn group_of(character_classes: &CharacterClasses, c: char) -> usize {
    character_classes
        .intervals
        .iter()
        .position(|group| group.iter().any(|&(lo, hi)| lo <= c && c <= hi))
        .expect("character in some group")
}

/// The state the DFA reaches on `text`, if it does not get stuck.
fn run(dfa: &Dfa, character_classes: &CharacterClasses, text: &str) -> Option<usize> {
    let mut state = 0;
    for c in text.chars() {
        let g = group_of(character_classes, c);
        state = dfa.states[state].transitions.iter().find(|t| t.elementary_interval_index == g)?.target;
    }
    Some(state)
}

#[test]
fn dfa_runs_follow_the_patterns() {
    let patterns = vec![
        Pattern::new("a".to_string(), 1),
        Pattern::new("ab".to_string(), 2),
        Pattern::new("b+".to_string(), 3),
    ];
    let mut nfa = Nfa::build_from_patterns(&patterns).unwrap();
    let mut character_classes = CharacterClasses::new();
    nfa.collect_character_classes(&mut character_classes);
    character_classes.create_disjoint_character_classes();
    nfa.convert_to_disjoint_character_classes(&character_classes);
    let dfa = Dfa::try_from_nfa(&nfa).unwrap();
    let accepted = |text: &str| -> Option<Vec<usize>> {
        run(&dfa, &character_classes, text).map(|s| dfa.states[s].accepts.iter().map(|p| p.terminal_type).collect())
    };
    assert_eq!(accepted(""), Some(vec![]));
    assert_eq!(accepted("a"), Some(vec![1]));
    assert_eq!(accepted("ab"), Some(vec![2]));
    assert_eq!(accepted("bbb"), Some(vec![3]));
    assert_eq!(accepted("ba"), None);
    assert_eq!(accepted("abb"), None);
}

#[test]
fn test_initial_partition_compares_whole_patterns() {
    let p1 = Pattern::new("a".to_string(), 1);
    let p2 = Pattern::new("b".to_string(), 1);
    let mut s0 = DfaState::new();
    s0.accepts = vec![p1.duplicate()];
    let mut s1 = DfaState::new();
    s1.accepts = vec![p2.duplicate()];
    let mut s2 = DfaState::new();
    s2.accepts = vec![p1.duplicate()];
    let dfa = Dfa { states: vec![s0, s1, s2] };
    let partition = Minimizer::calculate_initial_partition(&dfa);
    assert_eq!(partition, vec![vec![0, 2], vec![1]]);
}
