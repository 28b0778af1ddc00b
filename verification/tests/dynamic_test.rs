use scnr2::dynamic::{
    bounded_count_regex, build_dynamic_pattern, CompileTimeConstraint, CompileTimeExpr, DynamicOp, DynamicSegment,
    StateDeclaration, StateType, UnresolvedDynamicPattern,
};

fn count_state(name: &str, index: usize, min: usize, max: usize) -> StateDeclaration {
    StateDeclaration { name: name.to_string(), index, state_type: StateType::Count { min, max } }
}

fn str_state(name: &str, index: usize, pattern: &str) -> StateDeclaration {
    StateDeclaration { name: name.to_string(), index, state_type: StateType::Str { pattern: pattern.to_string() } }
}

#[test]
fn bounded_count_regex_produces_expected_output() {
    assert_eq!(bounded_count_regex("#", 0, 4), "(?:\\#){0,4}");
    assert_eq!(bounded_count_regex("ab", 1, 3), "(?:ab){1,3}");
    assert_eq!(bounded_count_regex(".", 2, 2), "(?:\\.){2,2}");
}

#[test]
fn build_dynamic_pattern_capture_count_splits_prefix_and_suffix() {
    let unresolved = UnresolvedDynamicPattern {
        segments: vec![
            DynamicSegment::Regex { pattern: "r".to_string() },
            DynamicSegment::Capture { pattern: Some("#".to_string()), state_name: "n".to_string() },
            DynamicSegment::Regex { pattern: "\"".to_string() },
        ],
    };
    let (full_regex, compiled) = build_dynamic_pattern(&unresolved, &vec![count_state("n", 0, 0, 4)]).unwrap();

    assert_eq!(full_regex, "r(?:\\#){0,4}\"");
    assert_eq!(compiled.prefix_regex, "r");
    assert_eq!(compiled.suffix_regex, "\"");
    assert!(compiled.capture_regex.is_none());
    match compiled.op {
        DynamicOp::CaptureCount { state_index, unit, min, max } => {
            assert_eq!(state_index, 0);
            assert_eq!(unit, "#");
            assert_eq!((min, max), (0, 4));
        },
        _ => panic!("expected CaptureCount"),
    }
}

#[test]
fn build_dynamic_pattern_validate_count_defaults_to_equals_guard() {
    let unresolved = UnresolvedDynamicPattern {
        segments: vec![
            DynamicSegment::Regex { pattern: "\"".to_string() },
            DynamicSegment::Validate { pattern: Some("#".to_string()), state_name: "n".to_string(), constraint: None },
        ],
    };
    let (_, compiled) = build_dynamic_pattern(&unresolved, &vec![count_state("n", 0, 0, 4)]).unwrap();
    match compiled.op {
        DynamicOp::ValidateCount { guard, .. } => {
            assert!(matches!(guard, CompileTimeConstraint::Equals));
        },
        _ => panic!("expected ValidateCount"),
    }
}

#[test]
fn build_dynamic_pattern_validate_count_preserves_range_guard() {
    let guard = CompileTimeConstraint::Range { min: CompileTimeExpr::Lit(0), max_exclusive: CompileTimeExpr::State };
    let unresolved = UnresolvedDynamicPattern {
        segments: vec![DynamicSegment::Validate {
            pattern: Some("#".to_string()),
            state_name: "n".to_string(),
            constraint: Some(guard),
        }],
    };
    let (_, compiled) = build_dynamic_pattern(&unresolved, &vec![count_state("n", 0, 0, 4)]).unwrap();
    match compiled.op {
        DynamicOp::ValidateCount { guard: actual, .. } => assert!(matches!(
            actual,
            CompileTimeConstraint::Range { min: CompileTimeExpr::Lit(0), max_exclusive: CompileTimeExpr::State }
        )),
        _ => panic!("expected ValidateCount"),
    }
}

#[test]
fn build_dynamic_pattern_capture_str_records_pattern_and_op() {
    let unresolved = UnresolvedDynamicPattern {
        segments: vec![DynamicSegment::Capture { pattern: None, state_name: "tag".to_string() }],
    };
    let (full_regex, compiled) = build_dynamic_pattern(&unresolved, &vec![str_state("tag", 1, "[A-Z]+")]).unwrap();
    assert_eq!(full_regex, "(?:[A-Z]+)");
    assert_eq!(compiled.capture_regex.as_deref(), Some("[A-Z]+"));
    assert!(matches!(compiled.op, DynamicOp::CaptureStr { state_index: 1 }));
}

#[test]
fn build_dynamic_pattern_rejects_type_mismatch_with_clear_message() {
    let unresolved = UnresolvedDynamicPattern {
        segments: vec![DynamicSegment::Capture { pattern: Some("#".to_string()), state_name: "tag".to_string() }],
    };
    let err = build_dynamic_pattern(&unresolved, &vec![str_state("tag", 1, "[A-Z]+")]).err().unwrap();
    assert!(err.contains("declared as str"));
}

#[test]
fn build_dynamic_pattern_requires_exactly_one_dynamic_op() {
    let unresolved = UnresolvedDynamicPattern { segments: vec![DynamicSegment::Regex { pattern: "abc".to_string() }] };
    let err = build_dynamic_pattern(&unresolved, &vec![]).err().unwrap();
    assert!(err.contains("exactly one"));
}
