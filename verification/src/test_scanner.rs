//! A scanner with runtime state for raw-string-like delimiters: in mode
//! INITIAL, `r` followed by up to four `#` and a quote captures the number of
//! `#` into slot 0 (token 1); a quote followed by exactly that many `#` is
//! token 2; any other character is token 99.
use vstd::prelude::*;
use vstd::string::StringExecFns;
use crate::class_table::{class_of, intervals_wf, CharClassTable};
use crate::dynamic_state::slots_view;
use crate::find_matches::{scan_leaves, scans_as, scans_with_positions_as, FindMatches, FindMatchesWithPosition};
use crate::match_types::Match;
use crate::scanner_impl::{accept_before, accept_wf, modes_wf, ScannerImpl};
use crate::text::byte_len;
use crate::types::{
    AcceptData, Dfa, DfaState, DfaTransition, DynamicGuard, DynamicOp, DynamicPattern, Lookahead, ScannerMode,
};

verus! {

/// The character intervals of the scanner and their classes.
pub open spec fn test_intervals() -> Seq<(char, char, usize)> {
    seq![
        ('\0', '\t', 0usize),
        ('\u{b}', '!', 0usize),
        ('"', '"', 1usize),
        ('#', '#', 2usize),
        ('$', 'q', 0usize),
        ('r', 'r', 3usize),
        ('s', '\u{10fffe}', 0usize),
    ]
}

/// The character classification of the scanner.
pub fn test_class_table() -> (t: CharClassTable)
    ensures
        t.intervals@ == test_intervals(),
        t.wf(),
{
    let t = CharClassTable::new(
        vec![
            ('\0', '\t', 0usize),
            ('\u{b}', '!', 0usize),
            ('"', '"', 1usize),
            ('#', '#', 2usize),
            ('$', 'q', 0usize),
            ('r', 'r', 3usize),
            ('s', '\u{10fffe}', 0usize),
        ],
    );
    assert(t.intervals@ =~= test_intervals());
    assert(intervals_wf(test_intervals()));
    t
}

/// A transition to state `to`.
pub open spec fn edge(to: usize) -> Option<DfaTransition> {
    Some(DfaTransition { to })
}

/// The token type and priority of an accept, whether it has no lookahead,
/// and whether it checks runtime state.
pub open spec fn accept_key(a: AcceptData) -> (usize, usize, bool, bool) {
    (a.token_type, a.priority, a.lookahead is Absent, a.dynamic is Some)
}

/// The transitions of state `i` of the scanner's DFA, by character class.
pub open spec fn test_row(i: int) -> Seq<Option<DfaTransition>> {
    if i == 0 {
        seq![edge(5), edge(7), edge(5), edge(6)]
    } else if i == 1 {
        seq![None, edge(8), None, None]
    } else if i == 2 {
        seq![None, edge(8), edge(1), None]
    } else if i == 3 {
        seq![None, edge(8), edge(2), None]
    } else if i == 4 {
        seq![None, edge(8), edge(3), None]
    } else if i == 5 {
        seq![None::<DfaTransition>, None, None, None]
    } else if i == 6 {
        seq![None, edge(8), edge(4), None]
    } else if i == 7 {
        seq![None, None, edge(12), None]
    } else if i == 8 {
        seq![None::<DfaTransition>, None, None, None]
    } else if i == 9 {
        seq![None::<DfaTransition>, None, None, None]
    } else if i == 10 {
        seq![None, None, edge(9), None]
    } else if i == 11 {
        seq![None, None, edge(10), None]
    } else {
        seq![None, None, edge(11), None]
    }
}

/// The accept keys of state `i` of the scanner's DFA, in order.
pub open spec fn test_keys(i: int) -> Seq<(usize, usize, bool, bool)> {
    if i == 0 {
        Seq::empty()
    } else if i == 1 {
        Seq::empty()
    } else if i == 2 {
        Seq::empty()
    } else if i == 3 {
        Seq::empty()
    } else if i == 4 {
        Seq::empty()
    } else if i == 5 {
        seq![(99usize, 2usize, true, false)]
    } else if i == 6 {
        seq![(99usize, 2usize, true, false)]
    } else if i == 7 {
        seq![(2usize, 1usize, true, true), (99usize, 2usize, true, false)]
    } else if i == 8 {
        seq![(1usize, 0usize, true, true)]
    } else if i == 9 {
        seq![(2usize, 1usize, true, true)]
    } else if i == 10 {
        seq![(2usize, 1usize, true, true)]
    } else if i == 11 {
        seq![(2usize, 1usize, true, true)]
    } else {
        seq![(2usize, 1usize, true, true)]
    }
}

/// An accept that ends a match of a sub-expression: no token type of its own,
/// priority 0, no condition.
pub open spec fn sub_end(a: AcceptData) -> bool {
    a.token_type == 4294967295 && a.priority == 0 && a.lookahead is Absent && a.dynamic is None
}

/// The DFA `d` of a sub-expression has the states `rows`, by their
/// transitions, and accepts where `accepting` says so.
pub open spec fn sub_dfa_is(d: Dfa, rows: Seq<Seq<Option<DfaTransition>>>, accepting: Seq<bool>) -> bool {
    &&& d.states@.len() == rows.len()
    &&& forall|q: int| 0 <= q < rows.len() ==> (#[trigger] d.states@[q]).transitions@ == rows[q] && if accepting[q] {
        d.states@[q].accept_data@.len() == 1 && sub_end(d.states@[q].accept_data@[0])
    } else {
        d.states@[q].accept_data@.len() == 0
    }
}

/// The accept of any other character: token 99, priority 2, no condition.
pub open spec fn other_accept(a: AcceptData) -> bool {
    a.token_type == 99 && a.priority == 2 && a.lookahead is Absent && a.dynamic is None
}

/// The accept of the opener `r` + `#`* + `"`: token 1, priority 0, capturing
/// the count of `#` (0 to 4) into slot 0 between the prefix `r` and the
/// suffix `"`.
pub open spec fn opener_accept(a: AcceptData) -> bool {
    &&& a.token_type == 1 && a.priority == 0 && a.lookahead is Absent
    &&& a.dynamic matches Some(p)
    &&& p.op matches DynamicOp::CaptureCount { state_index, unit, min, max }
    &&& state_index == 0 && unit@ == "#"@ && min == 0 && max == 4
    &&& sub_dfa_is(p.prefix, seq![seq![None, None, None, edge(1)], seq![None::<DfaTransition>, None, None, None]], seq![false, true])
    &&& sub_dfa_is(p.suffix, seq![seq![None, edge(1), None, None], seq![None::<DfaTransition>, None, None, None]], seq![false, true])
    &&& p.capture is None
}

/// The accept of the closer `"` + `#`*: token 2, priority 1, valid where the
/// count of `#` (0 to 4) equals slot 0, after the prefix `"` and with an
/// empty suffix.
pub open spec fn closer_accept(a: AcceptData) -> bool {
    &&& a.token_type == 2 && a.priority == 1 && a.lookahead is Absent
    &&& a.dynamic matches Some(p)
    &&& p.op matches DynamicOp::ValidateCount { state_index, unit, min, max, guard }
    &&& state_index == 0 && unit@ == "#"@ && min == 0 && max == 4 && guard is Equal
    &&& sub_dfa_is(p.prefix, seq![seq![None, edge(1), None, None], seq![None::<DfaTransition>, None, None, None]], seq![false, true])
    &&& sub_dfa_is(p.suffix, seq![seq![None::<DfaTransition>, None, None, None]], seq![true])
    &&& p.capture is None
}

/// The accept `a` is of kind `k`: 0 any other character, 1 the opener, 2 the
/// closer.
pub open spec fn accept_kind_is(k: int, a: AcceptData) -> bool {
    if k == 0 { other_accept(a) } else if k == 1 { opener_accept(a) } else { closer_accept(a) }
}

/// The kinds of the accepts of state `i` of the scanner's DFA, in order.
pub open spec fn test_accepts(i: int) -> Seq<int> {
    if i == 5 || i == 6 {
        seq![0]
    } else if i == 7 {
        seq![2, 0]
    } else if i == 8 {
        seq![1]
    } else if 9 <= i <= 12 {
        seq![2]
    } else {
        Seq::empty()
    }
}

/// The accepts of a state are those of the kinds `kinds`.
pub open spec fn accepts_are(acc: Seq<AcceptData>, kinds: Seq<int>) -> bool {
    &&& acc.len() == kinds.len()
    &&& forall|j: int| 0 <= j < acc.len() ==> accept_kind_is(kinds[j], #[trigger] acc[j])
}

fn state_0() -> (s: DfaState)
    ensures
        s.transitions@ == test_row(0),
        s.accept_data@.map_values(|a: AcceptData| accept_key(a)) == test_keys(0),
        accepts_are(s.accept_data@, test_accepts(0)),
        forall|j: int| 0 <= j < s.accept_data@.len() ==> accept_wf(#[trigger] s.accept_data@[j]),
{
    DfaState {
                    transitions: vec![
                        Some(DfaTransition { to: 5 }),
                        Some(DfaTransition { to: 7 }),
                        Some(DfaTransition { to: 5 }),
                        Some(DfaTransition { to: 6 }),
                    ],
                    accept_data: vec![],
                }
}

fn state_1() -> (s: DfaState)
    ensures
        s.transitions@ == test_row(1),
        s.accept_data@.map_values(|a: AcceptData| accept_key(a)) == test_keys(1),
        accepts_are(s.accept_data@, test_accepts(1)),
        forall|j: int| 0 <= j < s.accept_data@.len() ==> accept_wf(#[trigger] s.accept_data@[j]),
{
    DfaState {
                    transitions: vec![None, Some(DfaTransition { to: 8 }), None, None],
                    accept_data: vec![],
                }
}

fn state_2() -> (s: DfaState)
    ensures
        s.transitions@ == test_row(2),
        s.accept_data@.map_values(|a: AcceptData| accept_key(a)) == test_keys(2),
        accepts_are(s.accept_data@, test_accepts(2)),
        forall|j: int| 0 <= j < s.accept_data@.len() ==> accept_wf(#[trigger] s.accept_data@[j]),
{
    DfaState {
                    transitions: vec![
                        None,
                        Some(DfaTransition { to: 8 }),
                        Some(DfaTransition { to: 1 }),
                        None,
                    ],
                    accept_data: vec![],
                }
}

fn state_3() -> (s: DfaState)
    ensures
        s.transitions@ == test_row(3),
        s.accept_data@.map_values(|a: AcceptData| accept_key(a)) == test_keys(3),
        accepts_are(s.accept_data@, test_accepts(3)),
        forall|j: int| 0 <= j < s.accept_data@.len() ==> accept_wf(#[trigger] s.accept_data@[j]),
{
    DfaState {
                    transitions: vec![
                        None,
                        Some(DfaTransition { to: 8 }),
                        Some(DfaTransition { to: 2 }),
                        None,
                    ],
                    accept_data: vec![],
                }
}

fn state_4() -> (s: DfaState)
    ensures
        s.transitions@ == test_row(4),
        s.accept_data@.map_values(|a: AcceptData| accept_key(a)) == test_keys(4),
        accepts_are(s.accept_data@, test_accepts(4)),
        forall|j: int| 0 <= j < s.accept_data@.len() ==> accept_wf(#[trigger] s.accept_data@[j]),
{
    DfaState {
                    transitions: vec![
                        None,
                        Some(DfaTransition { to: 8 }),
                        Some(DfaTransition { to: 3 }),
                        None,
                    ],
                    accept_data: vec![],
                }
}

fn state_5() -> (s: DfaState)
    ensures
        s.transitions@ == test_row(5),
        s.accept_data@.map_values(|a: AcceptData| accept_key(a)) == test_keys(5),
        accepts_are(s.accept_data@, test_accepts(5)),
        forall|j: int| 0 <= j < s.accept_data@.len() ==> accept_wf(#[trigger] s.accept_data@[j]),
{
    DfaState {
                    transitions: vec![None, None, None, None],
                    accept_data: vec![AcceptData {
                        token_type: 99,
                        priority: 2,
                        lookahead: Lookahead::Absent,
                        dynamic: None,
                    }],
                }
}

fn state_6() -> (s: DfaState)
    ensures
        s.transitions@ == test_row(6),
        s.accept_data@.map_values(|a: AcceptData| accept_key(a)) == test_keys(6),
        accepts_are(s.accept_data@, test_accepts(6)),
        forall|j: int| 0 <= j < s.accept_data@.len() ==> accept_wf(#[trigger] s.accept_data@[j]),
{
    DfaState {
                    transitions: vec![
                        None,
                        Some(DfaTransition { to: 8 }),
                        Some(DfaTransition { to: 4 }),
                        None,
                    ],
                    accept_data: vec![AcceptData {
                        token_type: 99,
                        priority: 2,
                        lookahead: Lookahead::Absent,
                        dynamic: None,
                    }],
                }
}

fn state_7() -> (s: DfaState)
    ensures
        s.transitions@ == test_row(7),
        s.accept_data@.map_values(|a: AcceptData| accept_key(a)) == test_keys(7),
        accepts_are(s.accept_data@, test_accepts(7)),
        forall|j: int| 0 <= j < s.accept_data@.len() ==> accept_wf(#[trigger] s.accept_data@[j]),
{
    DfaState {
                    transitions: vec![None, None, Some(DfaTransition { to: 12 }), None],
                    accept_data: vec![
                        AcceptData {
                            token_type: 2,
                            priority: 1,
                            lookahead: Lookahead::Absent,
                            dynamic: Some(DynamicPattern {
                                op: DynamicOp::ValidateCount {
                                    state_index: 0,
                                    unit: String::from_str("#"),
                                    min: 0,
                                    max: 4,
                                    guard: DynamicGuard::Equal,
                                },
                                prefix: Dfa {
                                    states: vec![
                                        DfaState {
                                            transitions: vec![
                                                None,
                                                Some(DfaTransition { to: 1 }),
                                                None,
                                                None,
                                            ],
                                            accept_data: vec![],
                                        },
                                        DfaState {
                                            transitions: vec![None, None, None, None],
                                            accept_data: vec![AcceptData {
                                                token_type: 4294967295,
                                                priority: 0,
                                                lookahead: Lookahead::Absent,
                                                dynamic: None,
                                            }],
                                        },
                                    ],
                                },
                                suffix: Dfa {
                                    states: vec![DfaState {
                                        transitions: vec![None, None, None, None],
                                        accept_data: vec![AcceptData {
                                            token_type: 4294967295,
                                            priority: 0,
                                            lookahead: Lookahead::Absent,
                                            dynamic: None,
                                        }],
                                    }],
                                },
                                capture: None,
                            }),
                        },
                        AcceptData {
                            token_type: 99,
                            priority: 2,
                            lookahead: Lookahead::Absent,
                            dynamic: None,
                        },
                    ],
                }
}

fn state_8() -> (s: DfaState)
    ensures
        s.transitions@ == test_row(8),
        s.accept_data@.map_values(|a: AcceptData| accept_key(a)) == test_keys(8),
        accepts_are(s.accept_data@, test_accepts(8)),
        forall|j: int| 0 <= j < s.accept_data@.len() ==> accept_wf(#[trigger] s.accept_data@[j]),
{
    DfaState {
                    transitions: vec![None, None, None, None],
                    accept_data: vec![AcceptData {
                        token_type: 1,
                        priority: 0,
                        lookahead: Lookahead::Absent,
                        dynamic: Some(DynamicPattern {
                            op: DynamicOp::CaptureCount {
                                state_index: 0,
                                unit: String::from_str("#"),
                                min: 0,
                                max: 4,
                            },
                            prefix: Dfa {
                                states: vec![
                                    DfaState {
                                        transitions: vec![
                                            None,
                                            None,
                                            None,
                                            Some(DfaTransition { to: 1 }),
                                        ],
                                        accept_data: vec![],
                                    },
                                    DfaState {
                                        transitions: vec![None, None, None, None],
                                        accept_data: vec![AcceptData {
                                            token_type: 4294967295,
                                            priority: 0,
                                            lookahead: Lookahead::Absent,
                                            dynamic: None,
                                        }],
                                    },
                                ],
                            },
                            suffix: Dfa {
                                states: vec![
                                    DfaState {
                                        transitions: vec![
                                            None,
                                            Some(DfaTransition { to: 1 }),
                                            None,
                                            None,
                                        ],
                                        accept_data: vec![],
                                    },
                                    DfaState {
                                        transitions: vec![None, None, None, None],
                                        accept_data: vec![AcceptData {
                                            token_type: 4294967295,
                                            priority: 0,
                                            lookahead: Lookahead::Absent,
                                            dynamic: None,
                                        }],
                                    },
                                ],
                            },
                            capture: None,
                        }),
                    }],
                }
}

fn state_9() -> (s: DfaState)
    ensures
        s.transitions@ == test_row(9),
        s.accept_data@.map_values(|a: AcceptData| accept_key(a)) == test_keys(9),
        accepts_are(s.accept_data@, test_accepts(9)),
        forall|j: int| 0 <= j < s.accept_data@.len() ==> accept_wf(#[trigger] s.accept_data@[j]),
{
    DfaState {
                    transitions: vec![None, None, None, None],
                    accept_data: vec![AcceptData {
                        token_type: 2,
                        priority: 1,
                        lookahead: Lookahead::Absent,
                        dynamic: Some(DynamicPattern {
                            op: DynamicOp::ValidateCount {
                                state_index: 0,
                                unit: String::from_str("#"),
                                min: 0,
                                max: 4,
                                guard: DynamicGuard::Equal,
                            },
                            prefix: Dfa {
                                states: vec![
                                    DfaState {
                                        transitions: vec![
                                            None,
                                            Some(DfaTransition { to: 1 }),
                                            None,
                                            None,
                                        ],
                                        accept_data: vec![],
                                    },
                                    DfaState {
                                        transitions: vec![None, None, None, None],
                                        accept_data: vec![AcceptData {
                                            token_type: 4294967295,
                                            priority: 0,
                                            lookahead: Lookahead::Absent,
                                            dynamic: None,
                                        }],
                                    },
                                ],
                            },
                            suffix: Dfa {
                                states: vec![DfaState {
                                    transitions: vec![None, None, None, None],
                                    accept_data: vec![AcceptData {
                                        token_type: 4294967295,
                                        priority: 0,
                                        lookahead: Lookahead::Absent,
                                        dynamic: None,
                                    }],
                                }],
                            },
                            capture: None,
                        }),
                    }],
                }
}

fn state_10() -> (s: DfaState)
    ensures
        s.transitions@ == test_row(10),
        s.accept_data@.map_values(|a: AcceptData| accept_key(a)) == test_keys(10),
        accepts_are(s.accept_data@, test_accepts(10)),
        forall|j: int| 0 <= j < s.accept_data@.len() ==> accept_wf(#[trigger] s.accept_data@[j]),
{
    DfaState {
                    transitions: vec![None, None, Some(DfaTransition { to: 9 }), None],
                    accept_data: vec![AcceptData {
                        token_type: 2,
                        priority: 1,
                        lookahead: Lookahead::Absent,
                        dynamic: Some(DynamicPattern {
                            op: DynamicOp::ValidateCount {
                                state_index: 0,
                                unit: String::from_str("#"),
                                min: 0,
                                max: 4,
                                guard: DynamicGuard::Equal,
                            },
                            prefix: Dfa {
                                states: vec![
                                    DfaState {
                                        transitions: vec![
                                            None,
                                            Some(DfaTransition { to: 1 }),
                                            None,
                                            None,
                                        ],
                                        accept_data: vec![],
                                    },
                                    DfaState {
                                        transitions: vec![None, None, None, None],
                                        accept_data: vec![AcceptData {
                                            token_type: 4294967295,
                                            priority: 0,
                                            lookahead: Lookahead::Absent,
                                            dynamic: None,
                                        }],
                                    },
                                ],
                            },
                            suffix: Dfa {
                                states: vec![DfaState {
                                    transitions: vec![None, None, None, None],
                                    accept_data: vec![AcceptData {
                                        token_type: 4294967295,
                                        priority: 0,
                                        lookahead: Lookahead::Absent,
                                        dynamic: None,
                                    }],
                                }],
                            },
                            capture: None,
                        }),
                    }],
                }
}

fn state_11() -> (s: DfaState)
    ensures
        s.transitions@ == test_row(11),
        s.accept_data@.map_values(|a: AcceptData| accept_key(a)) == test_keys(11),
        accepts_are(s.accept_data@, test_accepts(11)),
        forall|j: int| 0 <= j < s.accept_data@.len() ==> accept_wf(#[trigger] s.accept_data@[j]),
{
    DfaState {
                    transitions: vec![None, None, Some(DfaTransition { to: 10 }), None],
                    accept_data: vec![AcceptData {
                        token_type: 2,
                        priority: 1,
                        lookahead: Lookahead::Absent,
                        dynamic: Some(DynamicPattern {
                            op: DynamicOp::ValidateCount {
                                state_index: 0,
                                unit: String::from_str("#"),
                                min: 0,
                                max: 4,
                                guard: DynamicGuard::Equal,
                            },
                            prefix: Dfa {
                                states: vec![
                                    DfaState {
                                        transitions: vec![
                                            None,
                                            Some(DfaTransition { to: 1 }),
                                            None,
                                            None,
                                        ],
                                        accept_data: vec![],
                                    },
                                    DfaState {
                                        transitions: vec![None, None, None, None],
                                        accept_data: vec![AcceptData {
                                            token_type: 4294967295,
                                            priority: 0,
                                            lookahead: Lookahead::Absent,
                                            dynamic: None,
                                        }],
                                    },
                                ],
                            },
                            suffix: Dfa {
                                states: vec![DfaState {
                                    transitions: vec![None, None, None, None],
                                    accept_data: vec![AcceptData {
                                        token_type: 4294967295,
                                        priority: 0,
                                        lookahead: Lookahead::Absent,
                                        dynamic: None,
                                    }],
                                }],
                            },
                            capture: None,
                        }),
                    }],
                }
}

fn state_12() -> (s: DfaState)
    ensures
        s.transitions@ == test_row(12),
        s.accept_data@.map_values(|a: AcceptData| accept_key(a)) == test_keys(12),
        accepts_are(s.accept_data@, test_accepts(12)),
        forall|j: int| 0 <= j < s.accept_data@.len() ==> accept_wf(#[trigger] s.accept_data@[j]),
{
    DfaState {
                    transitions: vec![None, None, Some(DfaTransition { to: 11 }), None],
                    accept_data: vec![AcceptData {
                        token_type: 2,
                        priority: 1,
                        lookahead: Lookahead::Absent,
                        dynamic: Some(DynamicPattern {
                            op: DynamicOp::ValidateCount {
                                state_index: 0,
                                unit: String::from_str("#"),
                                min: 0,
                                max: 4,
                                guard: DynamicGuard::Equal,
                            },
                            prefix: Dfa {
                                states: vec![
                                    DfaState {
                                        transitions: vec![
                                            None,
                                            Some(DfaTransition { to: 1 }),
                                            None,
                                            None,
                                        ],
                                        accept_data: vec![],
                                    },
                                    DfaState {
                                        transitions: vec![None, None, None, None],
                                        accept_data: vec![AcceptData {
                                            token_type: 4294967295,
                                            priority: 0,
                                            lookahead: Lookahead::Absent,
                                            dynamic: None,
                                        }],
                                    },
                                ],
                            },
                            suffix: Dfa {
                                states: vec![DfaState {
                                    transitions: vec![None, None, None, None],
                                    accept_data: vec![AcceptData {
                                        token_type: 4294967295,
                                        priority: 0,
                                        lookahead: Lookahead::Absent,
                                        dynamic: None,
                                    }],
                                }],
                            },
                            capture: None,
                        }),
                    }],
                }
}


/// The modes of the scanner: one mode INITIAL without transitions, whose DFA
/// has the states of `test_row` and `test_keys`.
pub open spec fn test_modes(ms: Seq<ScannerMode>) -> bool {
    &&& ms.len() == 1
    &&& ms[0].name@ == "INITIAL"@
    &&& ms[0].transitions@.len() == 0
    &&& ms[0].dfa.states@.len() == 13
    &&& forall|i: int| 0 <= i < 13 ==> (#[trigger] ms[0].dfa.states@[i]).transitions@ == test_row(i)
        && ms[0].dfa.states@[i].accept_data@.map_values(|a: AcceptData| accept_key(a)) == test_keys(i)
        && accepts_are(ms[0].dfa.states@[i].accept_data@, test_accepts(i))
}

/// The modes of the scanner.
pub fn test_scanner_modes() -> (modes: Vec<ScannerMode>)
    ensures
        test_modes(modes@),
        modes_wf(modes@),
{
    let states = vec![
        state_0(),
        state_1(),
        state_2(),
        state_3(),
        state_4(),
        state_5(),
        state_6(),
        state_7(),
        state_8(),
        state_9(),
        state_10(),
        state_11(),
        state_12()
    ];
    let modes = vec![ScannerMode { name: String::from_str("INITIAL"), transitions: vec![], dfa: Dfa { states } }];
    proof {
        let d = modes@[0].dfa;
        assert forall|q: int, k: int|
            0 <= q < d.states@.len() && 0 <= k < d.states@[q].transitions@.len() && d.states@[q].transitions@[k] is Some
            implies (d.states@[q].transitions@[k]->0.to as int) < d.states@.len() by {
            assert(d.states@[q].transitions@ == test_row(q));
        }
        assert(crate::dfa_sim::dfa_wf(d));
        assert forall|q: int, i: int, j: int| 0 <= q < d.states@.len() && 0 <= i < j < d.states@[q].accept_data@.len()
            implies accept_before(#[trigger] d.states@[q].accept_data@[i], #[trigger] d.states@[q].accept_data@[j]) by {
            let keys = d.states@[q].accept_data@.map_values(|a: AcceptData| accept_key(a));
            assert(keys == test_keys(q));
            assert(keys[i] == accept_key(d.states@[q].accept_data@[i]));
            assert(keys[j] == accept_key(d.states@[q].accept_data@[j]));
        }
        assert(modes@[0].name@ == "INITIAL"@);
    }
    modes
}

/// The scanner.
pub struct TestScanner {
    pub scanner_impl: ScannerImpl,
}

impl TestScanner {
    pub open spec fn wf(&self) -> bool {
        &&& self.scanner_impl.wf()
        &&& self.scanner_impl.dynamic_state@.len() == 1
    }

    /// Creates a new instance of the scanner: mode INITIAL, one empty
    /// runtime-state slot.
    pub fn new() -> (s: Self)
        ensures
            s.wf(),
            test_modes(s.scanner_impl.modes@),
            s.scanner_impl.current_mode == 0,
            s.scanner_impl.mode_stack@.len() == 0,
            s.scanner_impl.dynamic_state@[0] is None,
    {
        let modes = test_scanner_modes();
        TestScanner { scanner_impl: ScannerImpl::new_with_dynamic_state(modes, 1) }
    }

    /// Clears the runtime state captured by this scanner instance. It
    /// persists across scans otherwise and is not touched by mode transitions.
    pub fn reset_dynamic_state(&mut self)
        requires
            old(self).wf(),
        ensures
            final(self).wf(),
            final(self).scanner_impl.dynamic_state@[0] is None,
            final(self).scanner_impl.current_mode == old(self).scanner_impl.current_mode,
    {
        self.scanner_impl.reset_dynamic_state();
    }

    /// Returns the character class of `c`.
    pub fn match_function(c: char) -> (r: Option<usize>)
        ensures
            r == class_of(test_intervals(), c),
    {
        let t = test_class_table();
        t.match_function(c)
    }

    /// Scans `input` from byte `offset` and returns all matches; the scanner
    /// keeps its mode, mode stack and runtime state for the next scan.
    pub fn find_matches(&mut self, input: &str, offset: usize) -> (ms: Vec<Match>)
        requires
            old(self).wf(),
        ensures
            final(self).wf(),
            forall|i: int| 0 <= i < ms@.len() ==> (#[trigger] ms@[i]).span.start < ms@[i].span.end,
            forall|i: int, j: int| 0 <= i < j < ms@.len() ==> (#[trigger] ms@[i]).span.end <= (#[trigger] ms@[j]).span.start,
            forall|i: int| 0 <= i < ms@.len() ==> (#[trigger] ms@[i]).span.end <= byte_len(input@),
            scans_as(old(self).scanner_impl, test_intervals(), input@, offset, ms@),
            scan_leaves(old(self).scanner_impl, test_intervals(), input@, offset, final(self).scanner_impl),
    {
        let mut scanner = ScannerImpl::new(Vec::new());
        core::mem::swap(&mut scanner, &mut self.scanner_impl);
        let table = test_class_table();
        let mut fm = ScannerImpl::find_matches(scanner, input, offset, &table);
        let ms = fm.collect_matches();
        self.scanner_impl = fm.scanner_impl;
        ms
    }

    /// Scans `input` from byte `offset` and returns all matches with their
    /// line and column positions.
    pub fn find_matches_with_position(&mut self, input: &str, offset: usize) -> (ms: Vec<Match>)
        requires
            old(self).wf(),
        ensures
            final(self).wf(),
            forall|i: int| 0 <= i < ms@.len() ==> (#[trigger] ms@[i]).positions is Some,
            scans_as(old(self).scanner_impl, test_intervals(), input@, offset, ms@),
            scans_with_positions_as(old(self).scanner_impl, test_intervals(), input@, offset, ms@),
            scan_leaves(old(self).scanner_impl, test_intervals(), input@, offset, final(self).scanner_impl),
    {
        let mut scanner = ScannerImpl::new(Vec::new());
        core::mem::swap(&mut scanner, &mut self.scanner_impl);
        let table = test_class_table();
        let mut fm = ScannerImpl::find_matches_with_position(scanner, input, offset, &table);
        let ms = fm.collect_matches();
        self.scanner_impl = fm.inner.scanner_impl;
        ms
    }

    /// Returns the index of the current mode.
    pub fn current_mode_index(&self) -> (i: usize)
        ensures
            i == self.scanner_impl.current_mode,
    {
        self.scanner_impl.current_mode_index()
    }

    /// Returns the name of the mode with the given index, or "Unknown".
    pub fn mode_name(&self, index: usize) -> (r: Option<String>)
        ensures
            r matches Some(name) && name@ == (if (index as int) < self.scanner_impl.modes@.len() {
                self.scanner_impl.modes@[index as int].name@
            } else {
                "Unknown"@
            }),
    {
        self.scanner_impl.mode_name(index)
    }

    /// Returns the name of the current mode.
    pub fn current_mode_name(&self) -> (name: String)
        ensures
            name@ == (if (self.scanner_impl.current_mode as int) < self.scanner_impl.modes@.len() {
                self.scanner_impl.modes@[self.scanner_impl.current_mode as int].name@
            } else {
                "Unknown"@
            }),
    {
        self.scanner_impl.current_mode_name()
    }
}

} // verus!
