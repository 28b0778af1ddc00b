//! Non-deterministic finite automata built from regular expressions by
//! Thompson's construction, and the operations that the subset construction
//! needs: epsilon closures and the character transitions of a set of states.
use vstd::prelude::*;
use vstd::string::StringExecFns;
use crate::character_classes::{fresh_classes, CharacterClassKind, CharacterClasses};
use crate::pattern::{Pattern, pattern_same};
use crate::regex_ast::{parse_regex, regex_syntax_error, regex_tree, RegexAst};
use crate::nfa_language::{accepts_word, accepts_word_as, labelled, regex_matches, runs};
use crate::text::{str_to_chars, utf8_to_string};

verus! {

/// The characters of an NFA transition: a character class of the
/// expression, or (after the split into disjoint classes) the intervals of a
/// disjoint character class with its number.
pub enum CharacterClassType {
    Kind(CharacterClassKind),
    Range(Vec<(char, char)>, usize),
}

/// A transition of an NFA; without characters it is an epsilon transition.
pub struct NfaTransition {
    pub character_class: Option<CharacterClassType>,
    pub target: usize,
}

/// A state of an NFA with its transitions and, for an accepting state, the
/// pattern it accepts.
pub struct NfaState {
    pub id: usize,
    pub transitions: Vec<NfaTransition>,
    pub accept_data: Option<Pattern>,
}

/// A non-deterministic finite automaton.
pub struct Nfa {
    /// The regular expression the automaton was built from.
    pub pattern: String,
    /// The states; the id of each state is its index.
    pub states: Vec<NfaState>,
    /// The start state.
    pub start_state: usize,
    /// The end state; after a build it accepts.
    pub end_state: usize,
}

/// The transition `t` with its target moved by `off`.
pub open spec fn shift_transition(t: NfaTransition, off: int) -> NfaTransition {
    NfaTransition { character_class: t.character_class, target: (t.target + off) as usize }
}

/// The state `s` with its id and targets moved by `off`.
pub open spec fn shifted_state(s: NfaState, t: NfaState, off: int) -> bool {
    &&& t.id == s.id + off
    &&& t.transitions@ == s.transitions@.map_values(|tr: NfaTransition| shift_transition(tr, off))
    &&& t.accept_data == s.accept_data
}

/// The state `t` is `s` with its id and targets moved by `off` and the
/// transitions `extra` added.
pub open spec fn shifted_state_with(s: NfaState, t: NfaState, off: int, extra: Seq<NfaTransition>) -> bool {
    &&& t.id == s.id + off
    &&& t.transitions@ == s.transitions@.map_values(|tr: NfaTransition| shift_transition(tr, off)) + extra
    &&& t.accept_data == s.accept_data
}

/// The state `t` is `s` with the transitions `extra` added.
pub open spec fn extended_state(s: NfaState, t: NfaState, extra: Seq<NfaTransition>) -> bool {
    &&& t.id == s.id
    &&& t.transitions@ == s.transitions@ + extra
    &&& t.accept_data == s.accept_data
}

/// An epsilon transition to `target`.
pub open spec fn epsilon(target: usize) -> NfaTransition {
    NfaTransition { character_class: None, target }
}

impl NfaState {
    /// A state with the given id, no transitions, and not accepting.
    pub fn new(id: usize) -> (s: NfaState)
        ensures
            s.id == id,
            s.transitions@.len() == 0,
            s.accept_data is None,
    {
        NfaState { id, transitions: Vec::new(), accept_data: None }
    }

    /// Moves the id and the targets of this state by `offset`.
    fn offset(&mut self, offset: usize)
        requires
            old(self).id + offset <= usize::MAX,
            forall|k: int| 0 <= k < old(self).transitions@.len() ==> (#[trigger] old(self).transitions@[k]).target + offset <= usize::MAX,
        ensures
            shifted_state(*old(self), *final(self), offset as int),
    {
        self.id = self.id + offset;
        let ghost before = self.transitions@;
        let mut k: usize = 0;
        while k < self.transitions.len()
            invariant
                k <= self.transitions@.len(),
                self.transitions@.len() == before.len(),
                self.id == old(self).id + offset,
                self.accept_data == old(self).accept_data,
                before == old(self).transitions@,
                forall|u: int| 0 <= u < before.len() ==> (#[trigger] before[u]).target + offset <= usize::MAX,
                forall|u: int| 0 <= u < k ==> #[trigger] self.transitions@[u] == shift_transition(before[u], offset as int),
                forall|u: int| k <= u < before.len() ==> #[trigger] self.transitions@[u] == before[u],
            decreases self.transitions.len() - k,
        {
            let t = self.transitions[k].target;
            self.transitions[k].target = t + offset;
            k = k + 1;
        }
        assert(self.transitions@ =~= before.map_values(|tr: NfaTransition| shift_transition(tr, offset as int)));
    }

    /// Whether the state has no transitions.
    pub fn is_empty(&self) -> (r: bool)
        ensures
            r == (self.transitions@.len() == 0),
    {
        self.transitions.len() == 0
    }
}

impl Nfa {
    /// The states are numbered by their index, and all targets and the start
    /// and end states are states.
    pub open spec fn wf(&self) -> bool {
        &&& self.states@.len() > 0
        &&& self.start_state < self.states@.len()
        &&& self.end_state < self.states@.len()
        &&& forall|i: int| 0 <= i < self.states@.len() ==> (#[trigger] self.states@[i]).id == i
        &&& forall|i: int, k: int| 0 <= i < self.states@.len() && 0 <= k < self.states@[i].transitions@.len()
            ==> (#[trigger] self.states@[i].transitions@[k]).target < self.states@.len()
    }

    /// No state accepts.
    pub open spec fn accept_free(&self) -> bool {
        forall|i: int| 0 <= i < self.states@.len() ==> (#[trigger] self.states@[i]).accept_data is None
    }

    /// The automaton of the empty expression: one state, no transitions.
    pub open spec fn spec_is_empty(&self) -> bool {
        &&& self.start_state == 0
        &&& self.end_state == 0
        &&& self.states@.len() == 1
        &&& self.states@[0].transitions@.len() == 0
    }

    /// An automaton with one state that is both start and end state.
    pub fn new() -> (n: Nfa)
        ensures
            n.wf(),
            n.accept_free(),
            n.spec_is_empty(),
            n.pattern@.len() == 0,
            unconverted(n),
    {
        let mut states: Vec<NfaState> = Vec::new();
        states.push(NfaState::new(0));
        Nfa { pattern: String::new(), states, start_state: 0, end_state: 0 }
    }

    /// Whether this is the automaton of the empty expression.
    pub fn is_empty(&self) -> (r: bool)
        ensures
            r == self.spec_is_empty(),
    {
        self.start_state == 0 && self.end_state == 0 && self.states.len() == 1 && self.states[0].is_empty()
    }

    /// Adds a new state without transitions and returns its id.
    fn new_state(&mut self) -> (id: usize)
        requires
            old(self).wf(),
            old(self).states@.len() < usize::MAX,
        ensures
            final(self).wf(),
            id == old(self).states@.len(),
            final(self).states@ == old(self).states@.push(final(self).states@[id as int]),
            final(self).states@[id as int].id == id,
            final(self).states@[id as int].transitions@.len() == 0,
            final(self).states@[id as int].accept_data is None,
            final(self).start_state == old(self).start_state,
            final(self).end_state == old(self).end_state,
            final(self).pattern == old(self).pattern,
            unconverted(*old(self)) ==> unconverted(*final(self)),
    {
        let id = self.states.len();
        self.states.push(NfaState::new(id));
        proof {
            if unconverted(*old(self)) {
                assert forall|i: int| 0 <= i < self.states@.len() implies no_range((#[trigger] self.states@[i]).transitions@) by {
                    if i < old(self).states@.len() {
                        assert(self.states@[i] == old(self).states@[i]);
                    }
                }
            }
        }
        id
    }

    /// Adds an epsilon transition.
    fn add_epsilon_transition(&mut self, from: usize, to: usize)
        requires
            old(self).wf(),
            from < old(self).states@.len(),
            to < old(self).states@.len(),
        ensures
            final(self).wf(),
            final(self).states@ == old(self).states@.update(from as int, NfaState {
                transitions: final(self).states@[from as int].transitions,
                ..old(self).states@[from as int]
            }),
            final(self).states@[from as int].transitions@ == old(self).states@[from as int].transitions@.push(epsilon(to)),
            final(self).start_state == old(self).start_state,
            final(self).end_state == old(self).end_state,
            final(self).pattern == old(self).pattern,
    {
        self.states[from].transitions.push(NfaTransition { character_class: None, target: to });
        proof {
            assert forall|i: int, k: int| 0 <= i < self.states@.len() && 0 <= k < self.states@[i].transitions@.len()
                implies (#[trigger] self.states@[i].transitions@[k]).target < self.states@.len() by {
                if i == from && k == old(self).states@[i].transitions@.len() {
                } else if i == from {
                    assert(self.states@[i].transitions@[k] == old(self).states@[i].transitions@[k]);
                }
            }
        }
    }

    /// Adds a transition on the characters of a class.
    fn add_transition(&mut self, from: usize, class: CharacterClassKind, to: usize)
        requires
            old(self).wf(),
            from < old(self).states@.len(),
            to < old(self).states@.len(),
        ensures
            final(self).wf(),
            final(self).states@.len() == old(self).states@.len(),
            forall|i: int| 0 <= i < old(self).states@.len() && i != from ==> #[trigger] final(self).states@[i] == old(self).states@[i],
            final(self).states@[from as int].accept_data == old(self).states@[from as int].accept_data,
            final(self).states@[from as int].transitions@ == old(self).states@[from as int].transitions@.push(
                NfaTransition { character_class: Some(CharacterClassType::Kind(class)), target: to }),
            final(self).start_state == old(self).start_state,
            final(self).end_state == old(self).end_state,
            final(self).pattern == old(self).pattern,
            unconverted(*old(self)) ==> unconverted(*final(self)),
    {
        self.states[from].transitions.push(
            NfaTransition { character_class: Some(CharacterClassType::Kind(class)), target: to },
        );
        proof {
            assert forall|i: int, k: int| 0 <= i < self.states@.len() && 0 <= k < self.states@[i].transitions@.len()
                implies (#[trigger] self.states@[i].transitions@[k]).target < self.states@.len() by {
                if i == from && k < old(self).states@[i].transitions@.len() {
                    assert(self.states@[i].transitions@[k] == old(self).states@[i].transitions@[k]);
                }
            }
            if unconverted(*old(self)) {
                assert forall|i: int| 0 <= i < self.states@.len() implies no_range((#[trigger] self.states@[i]).transitions@) by {
                    if i == from {
                        let ts = self.states@[i].transitions@;
                        assert forall|k: int| 0 <= k < ts.len() implies
                            !((#[trigger] ts[k]).character_class matches Some(CharacterClassType::Range(_, _))) by {
                            if k < old(self).states@[i].transitions@.len() {
                                assert(ts[k] == old(self).states@[i].transitions@[k]);
                            }
                        }
                    } else {
                        assert(self.states@[i] == old(self).states@[i]);
                    }
                }
            }
        }
    }

    /// Moves the ids, the targets and the start and end states by `offset`.
    fn shift_ids(&mut self, offset: usize) -> (r: (usize, usize))
        requires
            old(self).wf(),
            old(self).states@.len() + offset <= usize::MAX,
        ensures
            final(self).states@.len() == old(self).states@.len(),
            forall|i: int| 0 <= i < old(self).states@.len() ==>
                shifted_state(old(self).states@[i], #[trigger] final(self).states@[i], offset as int),
            final(self).start_state == old(self).start_state + offset,
            final(self).end_state == old(self).end_state + offset,
            final(self).pattern == old(self).pattern,
            r == (final(self).start_state, final(self).end_state),
    {
        let ghost before = self.states@;
        let mut i: usize = 0;
        while i < self.states.len()
            invariant
                i <= self.states@.len(),
                self.states@.len() == before.len(),
                before.len() + offset <= usize::MAX,
                self.start_state == old(self).start_state,
                self.end_state == old(self).end_state,
                self.pattern == old(self).pattern,
                old(self).start_state < before.len(),
                old(self).end_state < before.len(),
                before == old(self).states@,
                forall|u: int| 0 <= u < before.len() ==> (#[trigger] before[u]).id == u,
                forall|u: int, k: int| 0 <= u < before.len() && 0 <= k < before[u].transitions@.len()
                    ==> (#[trigger] before[u].transitions@[k]).target < before.len(),
                forall|u: int| 0 <= u < i ==> shifted_state(before[u], #[trigger] self.states@[u], offset as int),
                forall|u: int| i <= u < before.len() ==> #[trigger] self.states@[u] == before[u],
            decreases self.states.len() - i,
        {
            proof {
                assert forall|k: int| 0 <= k < self.states@[i as int].transitions@.len() implies
                    (#[trigger] self.states@[i as int].transitions@[k]).target + offset <= usize::MAX by {
                    assert(before[i as int].transitions@[k].target < before.len());
                }
            }
            self.states[i].offset(offset);
            i = i + 1;
        }
        self.start_state = self.start_state + offset;
        self.end_state = self.end_state + offset;
        (self.start_state, self.end_state)
    }
}


impl Nfa {
    /// Moves the states of `nfa` behind the states of this automaton.
    fn append(&mut self, nfa: Nfa)
        ensures
            final(self).states@ == old(self).states@ + nfa.states@,
            final(self).start_state == old(self).start_state,
            final(self).end_state == old(self).end_state,
            final(self).pattern == old(self).pattern,
    {
        let mut nfa = nfa;
        self.states.append(&mut nfa.states);
    }

    /// Concatenates `nfa` to this automaton: its states follow, numbered after
    /// the states of this one, and an epsilon transition leads from this end
    /// state to its start state. The automaton of the empty expression is
    /// replaced by `nfa`.
    pub fn concat(&mut self, nfa: Nfa)
        requires
            old(self).wf(),
            nfa.wf(),
            old(self).states@.len() + nfa.states@.len() <= usize::MAX,
        ensures
            final(self).wf(),
            final(self).pattern == old(self).pattern,
            old(self).spec_is_empty() ==> {
                &&& final(self).states@ == nfa.states@
                &&& final(self).start_state == nfa.start_state
                &&& final(self).end_state == nfa.end_state
            },
            !old(self).spec_is_empty() ==> {
                let l1 = old(self).states@.len();
                &&& final(self).states@.len() == l1 + nfa.states@.len()
                &&& forall|i: int| 0 <= i < l1 && i != old(self).end_state ==> #[trigger] final(self).states@[i] == old(self).states@[i]
                &&& extended_state(old(self).states@[old(self).end_state as int], final(self).states@[old(self).end_state as int],
                    seq![epsilon((nfa.start_state + l1) as usize)])
                &&& forall|i: int| 0 <= i < nfa.states@.len() ==>
                    shifted_state(nfa.states@[i], #[trigger] final(self).states@[l1 + i], l1 as int)
                &&& final(self).start_state == old(self).start_state
                &&& final(self).end_state == nfa.end_state + l1
            },
    {
        if self.is_empty() {
            self.start_state = nfa.start_state;
            self.end_state = nfa.end_state;
            self.states = nfa.states;
            return;
        }
        let l1 = self.states.len();
        let ghost orig = nfa.states@;
        let mut nfa = nfa;
        let (nfa_start, nfa_end) = nfa.shift_ids(l1);
        let ghost shifted = nfa.states@;
        self.append(nfa);
        proof {
            self.lemma_append_wf(old(self).states@, orig, shifted, l1 as int);
        }
        let ghost appended = self.states@;
        let end1 = self.end_state;
        self.add_epsilon_transition(end1, nfa_start);
        self.end_state = nfa_end;
        proof {
            assert forall|i: int| 0 <= i < orig.len() implies
                shifted_state(orig[i], #[trigger] self.states@[l1 + i], l1 as int) by {
                assert(self.states@[l1 + i] == appended[l1 + i]);
                assert(appended[l1 + i] == shifted[i]);
            }
            assert forall|i: int| 0 <= i < l1 && i != end1 implies #[trigger] self.states@[i] == old(self).states@[i] by {
                assert(self.states@[i] == appended[i]);
            }
            assert(appended[end1 as int] == old(self).states@[end1 as int]);
            assert(self.states@[end1 as int].transitions@ =~= old(self).states@[end1 as int].transitions@
                + seq![epsilon((nfa_start) as usize)]);
        }
    }
}


impl Nfa {
    /// After the states of a well-formed automaton are followed by the shifted
    /// states of another, the states are numbered by their index and all
    /// targets are states.
    proof fn lemma_append_wf(&self, first: Seq<NfaState>, orig: Seq<NfaState>, shifted: Seq<NfaState>, l1: int)
        requires
            self.states@ == first + shifted,
            l1 == first.len(),
            shifted.len() == orig.len(),
            forall|i: int| 0 <= i < first.len() ==> (#[trigger] first[i]).id == i,
            forall|i: int, k: int| 0 <= i < first.len() && 0 <= k < first[i].transitions@.len()
                ==> (#[trigger] first[i].transitions@[k]).target < first.len(),
            forall|i: int| 0 <= i < orig.len() ==> (#[trigger] orig[i]).id == i,
            forall|i: int, k: int| 0 <= i < orig.len() && 0 <= k < orig[i].transitions@.len()
                ==> (#[trigger] orig[i].transitions@[k]).target < orig.len(),
            forall|i: int| 0 <= i < orig.len() ==> shifted_state(orig[i], #[trigger] shifted[i], l1),
        ensures
            forall|i: int| 0 <= i < self.states@.len() ==> (#[trigger] self.states@[i]).id == i,
            forall|i: int, k: int| 0 <= i < self.states@.len() && 0 <= k < self.states@[i].transitions@.len()
                ==> (#[trigger] self.states@[i].transitions@[k]).target < self.states@.len(),
    {
        assert forall|i: int| 0 <= i < self.states@.len() implies (#[trigger] self.states@[i]).id == i by {
            if i >= l1 {
                assert(shifted_state(orig[i - l1], shifted[i - l1], l1));
            }
        }
        assert forall|i: int, k: int| 0 <= i < self.states@.len() && 0 <= k < self.states@[i].transitions@.len()
            implies (#[trigger] self.states@[i].transitions@[k]).target < self.states@.len() by {
            if i >= l1 {
                assert(shifted_state(orig[i - l1], shifted[i - l1], l1));
                assert(self.states@[i].transitions@[k] == shift_transition(orig[i - l1].transitions@[k], l1));
            }
        }
    }
}


impl Nfa {
    /// Joins `nfa` to this automaton as an alternative: its states follow,
    /// numbered after the states of this one; a new start state leads by
    /// epsilon transitions to both start states, and both end states lead to
    /// a new end state. The automaton of the empty expression is replaced by
    /// `nfa`.
    #[verifier::rlimit(30)]
    pub fn alternation(&mut self, nfa: Nfa)
        requires
            old(self).wf(),
            nfa.wf(),
            old(self).states@.len() + nfa.states@.len() + 2 <= usize::MAX,
        ensures
            final(self).wf(),
            final(self).pattern == old(self).pattern,
            old(self).spec_is_empty() ==> {
                &&& final(self).states@ == nfa.states@
                &&& final(self).start_state == nfa.start_state
                &&& final(self).end_state == nfa.end_state
            },
            !old(self).spec_is_empty() ==> {
                let l1 = old(self).states@.len();
                let l2 = nfa.states@.len();
                let s = (l1 + l2) as int;
                let e = (l1 + l2 + 1) as int;
                &&& final(self).states@.len() == l1 + l2 + 2
                &&& forall|i: int| 0 <= i < l1 && i != old(self).end_state ==> #[trigger] final(self).states@[i] == old(self).states@[i]
                &&& extended_state(old(self).states@[old(self).end_state as int], final(self).states@[old(self).end_state as int],
                    seq![epsilon(e as usize)])
                &&& forall|i: int| 0 <= i < l2 && i != nfa.end_state ==>
                    shifted_state(nfa.states@[i], #[trigger] final(self).states@[l1 + i], l1 as int)
                &&& shifted_state_with(nfa.states@[nfa.end_state as int], final(self).states@[l1 + nfa.end_state],
                    l1 as int, seq![epsilon(e as usize)])
                &&& final(self).states@[s].id == s
                &&& final(self).states@[s].transitions@ == seq![epsilon(old(self).start_state), epsilon((nfa.start_state + l1) as usize)]
                &&& final(self).states@[s].accept_data is None
                &&& final(self).states@[e].id == e
                &&& final(self).states@[e].transitions@.len() == 0
                &&& final(self).states@[e].accept_data is None
                &&& final(self).start_state == s
                &&& final(self).end_state == e
            },
    {
        if self.is_empty() {
            self.start_state = nfa.start_state;
            self.end_state = nfa.end_state;
            self.states = nfa.states;
            return;
        }
        let l1 = self.states.len();
        let ghost orig = nfa.states@;
        let ghost nfa_end0 = nfa.end_state;
        let mut nfa = nfa;
        let (nfa_start, nfa_end) = nfa.shift_ids(l1);
        let ghost shifted = nfa.states@;
        self.append(nfa);
        proof {
            self.lemma_append_wf(old(self).states@, orig, shifted, l1 as int);
        }
        let ghost appended = self.states@;
        let old_start = self.start_state;
        let old_end = self.end_state;
        let start_state = self.new_state();
        self.add_epsilon_transition(start_state, old_start);
        self.add_epsilon_transition(start_state, nfa_start);
        let ghost after_start = self.states@;
        let end_state = self.new_state();
        let ghost after_new_end = self.states@;
        self.add_epsilon_transition(old_end, end_state);
        let ghost after_e1 = self.states@;
        self.add_epsilon_transition(nfa_end, end_state);
        self.start_state = start_state;
        self.end_state = end_state;
        proof {
            let l2 = orig.len();
            assert(nfa_end == nfa_end0 + l1);
            assert(old_end < l1);
            assert(old_end != nfa_end);
            assert forall|i: int| 0 <= i < l1 && i != old_end implies #[trigger] self.states@[i] == old(self).states@[i] by {
                assert(self.states@[i] == after_e1[i]);
                assert(after_e1[i] == after_new_end[i]);
                assert(after_new_end[i] == after_start[i]);
                assert(appended[i] == old(self).states@[i]);
            }
            assert forall|i: int| 0 <= i < l2 && i != nfa_end0 implies
                shifted_state(orig[i], #[trigger] self.states@[l1 + i], l1 as int) by {
                assert(self.states@[l1 + i] == appended[l1 + i]);
                assert(appended[l1 + i] == shifted[i]);
            }
            assert(after_new_end[old_end as int] == appended[old_end as int]);
            assert(appended[old_end as int] == old(self).states@[old_end as int]);
            assert(self.states@[old_end as int] == after_e1[old_end as int]);
            assert(after_e1[old_end as int].transitions@ =~= old(self).states@[old_end as int].transitions@ + seq![epsilon(end_state)]);
            assert(after_e1[nfa_end as int] == appended[nfa_end as int]);
            assert(appended[nfa_end as int] == shifted[nfa_end0 as int]);
            assert(self.states@[nfa_end as int].transitions@ =~= shifted[nfa_end0 as int].transitions@ + seq![epsilon(end_state)]);
            assert(self.states@[start_state as int] == after_start[start_state as int]);
            assert(after_start[start_state as int].transitions@ =~= seq![epsilon(old_start), epsilon(nfa_start)]);
        }
    }

    /// Makes the automaton optional: a new start state leads by epsilon
    /// transitions to the old start state and to the end state.
    pub fn zero_or_one(&mut self)
        requires
            old(self).wf(),
            old(self).states@.len() < usize::MAX,
        ensures
            final(self).wf(),
            final(self).pattern == old(self).pattern,
            final(self).states@.len() == old(self).states@.len() + 1,
            forall|i: int| 0 <= i < old(self).states@.len() ==> #[trigger] final(self).states@[i] == old(self).states@[i],
            final(self).states@[old(self).states@.len() as int].id == old(self).states@.len(),
            final(self).states@[old(self).states@.len() as int].transitions@
                == seq![epsilon(old(self).start_state), epsilon(old(self).end_state)],
            final(self).states@[old(self).states@.len() as int].accept_data is None,
            final(self).start_state == old(self).states@.len(),
            final(self).end_state == old(self).end_state,
            unconverted(*old(self)) ==> unconverted(*final(self)),
    {
        let start_state = self.new_state();
        let s0 = self.start_state;
        let e0 = self.end_state;
        self.add_epsilon_transition(start_state, s0);
        self.add_epsilon_transition(start_state, e0);
        self.start_state = start_state;
        assert(self.states@[start_state as int].transitions@ =~= seq![epsilon(s0), epsilon(e0)]);
        proof {
            if unconverted(*old(self)) {
                assert forall|u: int| 0 <= u < self.states@.len() implies no_range((#[trigger] self.states@[u]).transitions@) by {
                    if u < old(self).states@.len() {
                        assert(self.states@[u] == old(self).states@[u]);
                    } else {
                        lemma_no_range_parts(Seq::empty(), 0, seq![epsilon(s0), epsilon(e0)]);
                        assert(Seq::<NfaTransition>::empty() + seq![epsilon(s0), epsilon(e0)] =~= self.states@[u].transitions@);
                    }
                }
            }
        }
    }

    /// Makes the automaton repeatable: a new start state leads to the old
    /// start and end states, and the old end state leads to a new end state
    /// and back to the old start state.
    pub fn zero_or_more(&mut self)
        requires
            old(self).wf(),
            old(self).states@.len() + 2 <= usize::MAX,
        ensures
            final(self).wf(),
            final(self).pattern == old(self).pattern,
            ({
                let l = old(self).states@.len() as int;
                &&& final(self).states@.len() == l + 2
                &&& forall|i: int| 0 <= i < l && i != old(self).end_state ==> #[trigger] final(self).states@[i] == old(self).states@[i]
                &&& extended_state(old(self).states@[old(self).end_state as int], final(self).states@[old(self).end_state as int],
                    seq![epsilon((l + 1) as usize), epsilon(old(self).start_state)])
                &&& final(self).states@[l as int].id == l
                &&& final(self).states@[l as int].transitions@ == seq![epsilon(old(self).start_state), epsilon(old(self).end_state)]
                &&& final(self).states@[l as int].accept_data is None
                &&& final(self).states@[l + 1].id == l + 1
                &&& final(self).states@[l + 1].transitions@.len() == 0
                &&& final(self).states@[l + 1].accept_data is None
                &&& final(self).start_state == l
                &&& final(self).end_state == l + 1
            }),
            unconverted(*old(self)) ==> unconverted(*final(self)),
    {
        let s0 = self.start_state;
        let e0 = self.end_state;
        let start_state = self.new_state();
        self.add_epsilon_transition(start_state, s0);
        self.add_epsilon_transition(start_state, e0);
        let ghost after_start = self.states@;
        let end_state = self.new_state();
        let ghost after_end = self.states@;
        self.add_epsilon_transition(e0, end_state);
        self.add_epsilon_transition(e0, s0);
        self.start_state = start_state;
        self.end_state = end_state;
        proof {
            assert(self.states@[start_state as int] == after_start[start_state as int]);
            assert(after_start[start_state as int].transitions@ =~= seq![epsilon(s0), epsilon(e0)]);
            assert(after_end[e0 as int] == old(self).states@[e0 as int]);
            assert(self.states@[e0 as int].transitions@ =~= old(self).states@[e0 as int].transitions@
                + seq![epsilon(end_state), epsilon(s0)]);
            if unconverted(*old(self)) {
                let l = old(self).states@.len() as int;
                assert forall|u: int| 0 <= u < self.states@.len() implies no_range((#[trigger] self.states@[u]).transitions@) by {
                    if u < l && u != e0 {
                        assert(self.states@[u] == old(self).states@[u]);
                    } else if u == e0 {
                        lemma_no_range_parts(old(self).states@[u].transitions@, 0, seq![epsilon(end_state), epsilon(s0)]);
                    } else if u == l {
                        lemma_no_range_parts(Seq::empty(), 0, seq![epsilon(s0), epsilon(e0)]);
                        assert(Seq::<NfaTransition>::empty() + seq![epsilon(s0), epsilon(e0)] =~= self.states@[u].transitions@);
                    }
                }
            }
        }
    }
}


/// Two character classes of transitions with the same characters.
pub open spec fn class_type_same(a: Option<CharacterClassType>, b: Option<CharacterClassType>) -> bool {
    match (a, b) {
        (None, None) => true,
        (Some(CharacterClassType::Kind(x)), Some(CharacterClassType::Kind(y))) => crate::character_classes::kind_eq(x, y),
        (Some(CharacterClassType::Range(x, i)), Some(CharacterClassType::Range(y, j))) => x@ == y@ && i == j,
        _ => false,
    }
}

/// Two optional patterns with the same content.
pub open spec fn accept_same(a: Option<Pattern>, b: Option<Pattern>) -> bool {
    match (a, b) {
        (None, None) => true,
        (Some(x), Some(y)) => pattern_same(x, y),
        _ => false,
    }
}

/// Two states with the same id, transitions and accept data.
pub open spec fn state_same(a: NfaState, b: NfaState) -> bool {
    &&& a.id == b.id
    &&& a.transitions@.len() == b.transitions@.len()
    &&& forall|k: int| 0 <= k < a.transitions@.len() ==> {
        &&& (#[trigger] a.transitions@[k]).target == b.transitions@[k].target
        &&& class_type_same(a.transitions@[k].character_class, b.transitions@[k].character_class)
    }
    &&& accept_same(a.accept_data, b.accept_data)
}

/// Two automata with the same content.
pub open spec fn nfa_same(a: Nfa, b: Nfa) -> bool {
    &&& a.pattern@ == b.pattern@
    &&& a.start_state == b.start_state
    &&& a.end_state == b.end_state
    &&& a.states@.len() == b.states@.len()
    &&& forall|i: int| 0 <= i < a.states@.len() ==> state_same(#[trigger] a.states@[i], b.states@[i])
}

impl CharacterClassType {
    /// A copy of this class.
    pub fn duplicate(&self) -> (r: CharacterClassType)
        ensures
            class_type_same(Some(r), Some(*self)),
    {
        match self {
            CharacterClassType::Kind(k) => CharacterClassType::Kind(k.duplicate()),
            CharacterClassType::Range(rs, i) => {
                let mut v: Vec<(char, char)> = Vec::new();
                let mut t: usize = 0;
                while t < rs.len()
                    invariant
                        t <= rs@.len(),
                        v@ == rs@.take(t as int),
                    decreases rs.len() - t,
                {
                    v.push(rs[t]);
                    t = t + 1;
                }
                assert(v@ =~= rs@);
                CharacterClassType::Range(v, *i)
            },
        }
    }
}

impl NfaState {
    /// A copy of this state.
    pub fn duplicate(&self) -> (r: NfaState)
        ensures
            state_same(r, *self),
    {
        let mut transitions: Vec<NfaTransition> = Vec::new();
        let mut k: usize = 0;
        while k < self.transitions.len()
            invariant
                k <= self.transitions@.len(),
                transitions@.len() == k,
                forall|u: int| 0 <= u < k ==> {
                    &&& (#[trigger] transitions@[u]).target == self.transitions@[u].target
                    &&& class_type_same(transitions@[u].character_class, self.transitions@[u].character_class)
                },
            decreases self.transitions.len() - k,
        {
            let t = &self.transitions[k];
            let character_class = match &t.character_class {
                Some(c) => Some(c.duplicate()),
                None => None,
            };
            transitions.push(NfaTransition { character_class, target: t.target });
            k = k + 1;
        }
        let accept_data = match &self.accept_data {
            Some(p) => Some(p.duplicate()),
            None => None,
        };
        NfaState { id: self.id, transitions, accept_data }
    }
}

impl Nfa {
    /// A copy of this automaton.
    pub fn duplicate(&self) -> (r: Nfa)
        ensures
            nfa_same(r, *self),
            self.wf() ==> r.wf(),
            self.accept_free() ==> r.accept_free(),
            unconverted(*self) ==> unconverted(r),
            r.spec_is_empty() == self.spec_is_empty(),
    {
        let mut states: Vec<NfaState> = Vec::new();
        let mut i: usize = 0;
        while i < self.states.len()
            invariant
                i <= self.states@.len(),
                states@.len() == i,
                forall|u: int| 0 <= u < i ==> state_same(#[trigger] states@[u], self.states@[u]),
            decreases self.states.len() - i,
        {
            states.push(self.states[i].duplicate());
            i = i + 1;
        }
        let r = Nfa { pattern: self.pattern.clone(), states, start_state: self.start_state, end_state: self.end_state };
        proof {
            if self.wf() {
                assert forall|u: int, k: int| 0 <= u < r.states@.len() && 0 <= k < r.states@[u].transitions@.len()
                    implies (#[trigger] r.states@[u].transitions@[k]).target < r.states@.len() by {
                    assert(state_same(r.states@[u], self.states@[u]));
                    assert(self.states@[u].transitions@[k].target < self.states@.len());
                }
                assert forall|u: int| 0 <= u < r.states@.len() implies (#[trigger] r.states@[u]).id == u by {
                    assert(state_same(r.states@[u], self.states@[u]));
                }
            }
            if self.accept_free() {
                assert forall|u: int| 0 <= u < r.states@.len() implies (#[trigger] r.states@[u]).accept_data is None by {
                    assert(state_same(r.states@[u], self.states@[u]));
                }
            }
            if r.states@.len() == 1 {
                assert(state_same(r.states@[0], self.states@[0]));
            }
            if unconverted(*self) {
                assert forall|u: int| 0 <= u < r.states@.len() implies no_range((#[trigger] r.states@[u]).transitions@) by {
                    assert(state_same(r.states@[u], self.states@[u]));
                    assert(no_range(self.states@[u].transitions@));
                    assert forall|k: int| 0 <= k < r.states@[u].transitions@.len() implies
                        !((#[trigger] r.states@[u].transitions@[k]).character_class matches Some(CharacterClassType::Range(_, _))) by {
                        assert(class_type_same(r.states@[u].transitions@[k].character_class, self.states@[u].transitions@[k].character_class));
                    }
                }
            }
        }
        r
    }
}


/// Whether the scanner's automata support the expression: no look-around
/// assertions, only greedy repetitions, and literals of valid UTF-8.
pub open spec fn ast_supported(ast: RegexAst) -> bool
    decreases ast, 0int,
{
    match ast {
        RegexAst::Empty => true,
        RegexAst::Look(_) => false,
        RegexAst::Literal(bytes) => vstd::utf8::valid_utf8(bytes@),
        RegexAst::Class(_) => true,
        RegexAst::Repetition { greedy, sub, .. } => greedy && ast_supported(*sub),
        RegexAst::Capture(sub) => ast_supported(*sub),
        RegexAst::Concat(subs) => all_supported(subs@, subs@.len() as int),
        RegexAst::Alternation(subs) => all_supported(subs@, subs@.len() as int),
    }
}

/// Whether the first `n` expressions are supported.
pub open spec fn all_supported(subs: Seq<RegexAst>, n: int) -> bool
    decreases subs, n,
{
    if n <= 0 || n > subs.len() {
        true
    } else {
        all_supported(subs, n - 1) && ast_supported(subs[n - 1])
    }
}

/// The number of states of an automaton and whether it is the automaton of
/// the empty expression, after a concatenation of automata of these shapes.
pub open spec fn concat_shapes(a: (nat, bool), b: (nat, bool)) -> (nat, bool) {
    if a.1 {
        b
    } else {
        (a.0 + b.0, false)
    }
}

/// The shape after an alternation of automata of these shapes.
pub open spec fn alternation_shapes(a: (nat, bool), b: (nat, bool)) -> (nat, bool) {
    if a.1 {
        b
    } else {
        (a.0 + b.0 + 2, false)
    }
}

/// The shape after concatenating `k` automata of shape `b` to one of shape `a`.
pub open spec fn repeat_shapes(a: (nat, bool), b: (nat, bool), k: nat) -> (nat, bool)
    decreases k,
{
    if k == 0 {
        a
    } else {
        concat_shapes(repeat_shapes(a, b, (k - 1) as nat), b)
    }
}

/// The shape of the automaton built from an expression: its number of
/// states, and whether it is the automaton of the empty expression.
pub open spec fn nfa_shape(ast: RegexAst) -> (nat, bool)
    decreases ast, 0int,
{
    match ast {
        RegexAst::Empty => (1, true),
        RegexAst::Look(_) => (1, true),
        RegexAst::Literal(bytes) => {
            let n = vstd::utf8::decode_utf8(bytes@).len();
            (1 + n, n == 0)
        },
        RegexAst::Class(_) => (2, false),
        RegexAst::Repetition { min, max, sub, .. } => {
            let sb = nfa_shape(*sub);
            let base = repeat_shapes((1, true), sb, min as nat);
            match max {
                Some(mx) => repeat_shapes(base, (sb.0 + 1, false), if mx > min { (mx - min) as nat } else { 0 }),
                None => concat_shapes(base, (sb.0 + 2, false)),
            }
        },
        RegexAst::Capture(sub) => nfa_shape(*sub),
        RegexAst::Concat(subs) => concat_fold(subs@, subs@.len() as int),
        RegexAst::Alternation(subs) => alternation_fold(subs@, subs@.len() as int),
    }
}

/// The shape of the concatenation of the automata of the first `n` expressions.
pub open spec fn concat_fold(subs: Seq<RegexAst>, n: int) -> (nat, bool)
    decreases subs, n,
{
    if n <= 0 || n > subs.len() {
        (1, true)
    } else {
        concat_shapes(concat_fold(subs, n - 1), nfa_shape(subs[n - 1]))
    }
}

/// The shape of the alternation of the automata of the first `n` expressions.
pub open spec fn alternation_fold(subs: Seq<RegexAst>, n: int) -> (nat, bool)
    decreases subs, n,
{
    if n <= 0 || n > subs.len() {
        (1, true)
    } else {
        alternation_shapes(alternation_fold(subs, n - 1), nfa_shape(subs[n - 1]))
    }
}

/// A shape of an automaton: at least one state, and one state exactly where
/// it is the automaton of the empty expression.
pub open spec fn shape_ok(s: (nat, bool)) -> bool {
    s.0 >= 1 && (s.1 ==> s.0 == 1)
}

/// Whether the automaton of the expression, and of each sub-expression, has
/// at most `usize::MAX - 3` states, so that every automaton built on the way
/// can be counted.
pub open spec fn ast_fits(ast: RegexAst) -> bool
    decreases ast, 0int,
{
    &&& nfa_shape(ast).0 <= usize::MAX - 3
    &&& match ast {
        RegexAst::Repetition { sub, .. } => ast_fits(*sub),
        RegexAst::Capture(sub) => ast_fits(*sub),
        RegexAst::Concat(subs) => all_fit(subs@, subs@.len() as int),
        RegexAst::Alternation(subs) => all_fit(subs@, subs@.len() as int),
        _ => true,
    }
}

/// Whether the first `n` expressions fit.
pub open spec fn all_fit(subs: Seq<RegexAst>, n: int) -> bool
    decreases subs, n,
{
    if n <= 0 || n > subs.len() {
        true
    } else {
        all_fit(subs, n - 1) && ast_fits(subs[n - 1])
    }
}

/// Whether the expression is one whose automaton accepts exactly its words:
/// every alternation has an alternative, every bounded repetition has its
/// least count at most its greatest, and no alternation whose first
/// alternative has the automaton of the empty expression has another that
/// has not (the automaton of such an alternation is that of the next
/// alternative, without the empty word).
pub open spec fn well_formed_regex(ast: RegexAst) -> bool
    decreases ast, 0int,
{
    match ast {
        RegexAst::Repetition { min, max, sub, .. } => {
            &&& match max {
                Some(m) => min <= m,
                None => true,
            }
            &&& well_formed_regex(*sub)
        },
        RegexAst::Capture(sub) => well_formed_regex(*sub),
        RegexAst::Concat(subs) => all_well_formed(subs@, subs@.len() as int),
        RegexAst::Alternation(subs) => {
            &&& subs@.len() > 0
            &&& all_well_formed(subs@, subs@.len() as int)
            &&& nfa_shape(subs@[0]).1 ==> forall|j: int| 0 <= j < subs@.len() ==> nfa_shape(#[trigger] subs@[j]).1
        },
        _ => true,
    }
}

/// Whether the first `n` expressions are well formed.
pub open spec fn all_well_formed(subs: Seq<RegexAst>, n: int) -> bool
    decreases subs, n,
{
    if n <= 0 || n > subs.len() {
        true
    } else {
        all_well_formed(subs, n - 1) && well_formed_regex(subs[n - 1])
    }
}

/// Each of the first `n` expressions fits and is supported, where all are.
proof fn lemma_all_at(subs: Seq<RegexAst>, n: int, i: int)
    requires
        0 <= i < n <= subs.len(),
    ensures
        all_fit(subs, n) ==> ast_fits(subs[i]),
        all_supported(subs, n) ==> ast_supported(subs[i]),
        all_well_formed(subs, n) ==> well_formed_regex(subs[i]),
    decreases n,
{
    if i < n - 1 {
        lemma_all_at(subs, n - 1, i);
    }
}

/// Repeating a shape keeps it a shape and never loses states.
proof fn lemma_repeat_shapes(a: (nat, bool), b: (nat, bool), k: nat)
    requires
        shape_ok(a),
        shape_ok(b),
    ensures
        shape_ok(repeat_shapes(a, b, k)),
        repeat_shapes(a, b, k).0 >= a.0,
        forall|j: nat| j <= k ==> (#[trigger] repeat_shapes(a, b, j)).0 <= repeat_shapes(a, b, k).0,
    decreases k,
{
    if k > 0 {
        lemma_repeat_shapes(a, b, (k - 1) as nat);
    }
}

/// The shape of every expression is a shape.
proof fn lemma_shape_ok(ast: RegexAst)
    ensures
        shape_ok(nfa_shape(ast)),
    decreases ast, 0int,
{
    match ast {
        RegexAst::Repetition { min, max, sub, .. } => {
            lemma_shape_ok(*sub);
            let sb = nfa_shape(*sub);
            lemma_repeat_shapes((1, true), sb, min as nat);
            let base = repeat_shapes((1, true), sb, min as nat);
            match max {
                Some(mx) => {
                    lemma_repeat_shapes(base, (sb.0 + 1, false), if mx > min { (mx - min) as nat } else { 0 });
                },
                None => {},
            }
        },
        RegexAst::Capture(sub) => {
            lemma_shape_ok(*sub);
        },
        RegexAst::Concat(subs) => {
            assert(decreases_to!(ast => subs));
            lemma_concat_fold(subs@, subs@.len() as int);
        },
        RegexAst::Alternation(subs) => {
            assert(decreases_to!(ast => subs));
            lemma_alternation_fold(subs@, subs@.len() as int);
        },
        _ => {},
    }
}

/// Concatenating more expressions never loses states.
proof fn lemma_concat_fold(subs: Seq<RegexAst>, n: int)
    requires
        0 <= n <= subs.len(),
    ensures
        shape_ok(concat_fold(subs, n)),
        forall|j: int| 0 <= j <= n ==> (#[trigger] concat_fold(subs, j)).0 <= concat_fold(subs, n).0,
    decreases subs, n,
{
    if n > 0 {
        lemma_concat_fold(subs, n - 1);
        lemma_shape_ok(subs[n - 1]);
    }
}

/// The alternation of the first `i` expressions is the automaton of the empty
/// expression only where the first alternative's is.
proof fn lemma_alternation_fold_empty(subs: Seq<RegexAst>, i: int)
    requires
        1 <= i <= subs.len(),
    ensures
        alternation_fold(subs, i).1 ==> nfa_shape(subs[0]).1,
    decreases i,
{
    if i > 1 {
        lemma_alternation_fold_empty(subs, i - 1);
    }
}

/// Joining more alternatives never loses states.
proof fn lemma_alternation_fold(subs: Seq<RegexAst>, n: int)
    requires
        0 <= n <= subs.len(),
    ensures
        shape_ok(alternation_fold(subs, n)),
        forall|j: int| 0 <= j <= n ==> (#[trigger] alternation_fold(subs, j)).0 <= alternation_fold(subs, n).0,
    decreases subs, n,
{
    if n > 0 {
        lemma_alternation_fold(subs, n - 1);
        lemma_shape_ok(subs[n - 1]);
    }
}

/// A built automaton of the given shape, without accepting states, whose end
/// state has no transitions.
pub open spec fn built(n: Nfa, shape: (nat, bool)) -> bool {
    &&& n.wf()
    &&& n.accept_free()
    &&& unconverted(n)
    &&& n.states@.len() == shape.0
    &&& n.spec_is_empty() == shape.1
    &&& end_free(n)
}

/// The end state has no transitions.
pub open spec fn end_free(n: Nfa) -> bool {
    n.states@[n.end_state as int].transitions@.len() == 0
}

impl Nfa {
    /// Concatenates `nfa`, or fails where the states would be too many to count.
    fn try_concat(&mut self, nfa: Nfa) -> (r: Result<(), String>)
        requires
            old(self).wf(),
            old(self).accept_free(),
            unconverted(*old(self)),
            nfa.wf(),
            nfa.accept_free(),
            unconverted(nfa),
            end_free(nfa),
        ensures
            r is Ok ==> built(*final(self), concat_shapes(
                (old(self).states@.len(), old(self).spec_is_empty()), (nfa.states@.len(), nfa.spec_is_empty()))),
            r is Ok ==> final(self).pattern == old(self).pattern,
            old(self).states@.len() + nfa.states@.len() <= usize::MAX ==> r is Ok,
            r is Ok ==> crate::nfa_language::concat_of(*old(self), nfa, *final(self)),
            r is Ok ==> final(self).states@.len() <= usize::MAX,
    {
        if self.states.len() > usize::MAX - nfa.states.len() {
            return Err(String::from_str("the automaton has too many states"));
        }
        let l1 = self.states.len();
        let ghost nfa_states = nfa.states@;
        let ghost nfa_start0 = nfa.start_state;
        let ghost was_empty = self.spec_is_empty();
        let ghost nfa_end0 = nfa.end_state;
        self.concat(nfa);
        proof {
            if !was_empty {
                let be = nfa_states[nfa_end0 as int];
                assert(shifted_state(be, self.states@[l1 + nfa_end0], l1 as int));
                assert(self.states@[self.end_state as int].transitions@.len() == 0);
            }
            if !was_empty {
                assert forall|i: int| 0 <= i < self.states@.len() implies (#[trigger] self.states@[i]).accept_data is None by {
                    if i >= l1 {
                        assert(shifted_state(nfa_states[i - l1], self.states@[l1 + (i - l1)], l1 as int));
                    } else if i != old(self).end_state {
                        assert(self.states@[i] == old(self).states@[i]);
                    }
                }
                assert forall|i: int| 0 <= i < self.states@.len() implies no_range((#[trigger] self.states@[i]).transitions@) by {
                    if i >= l1 {
                        assert(shifted_state(nfa_states[i - l1], self.states@[l1 + (i - l1)], l1 as int));
                        lemma_no_range_parts(nfa_states[i - l1].transitions@, l1 as int, Seq::empty());
                        assert(nfa_states[i - l1].transitions@.map_values(|tr: NfaTransition| shift_transition(tr, l1 as int))
                            + Seq::<NfaTransition>::empty() =~= self.states@[i].transitions@);
                    } else if i != old(self).end_state {
                        assert(self.states@[i] == old(self).states@[i]);
                    } else {
                        lemma_no_range_parts(old(self).states@[i].transitions@, 0, seq![epsilon((nfa_start0 + l1) as usize)]);
                    }
                }
            }
        }
        Ok(())
    }

    /// Joins `nfa` as an alternative, or fails where the states would be too
    /// many to count.
    fn try_alternation(&mut self, nfa: Nfa) -> (r: Result<(), String>)
        requires
            old(self).wf(),
            old(self).accept_free(),
            unconverted(*old(self)),
            nfa.wf(),
            nfa.accept_free(),
            unconverted(nfa),
            end_free(nfa),
        ensures
            r is Ok ==> built(*final(self), alternation_shapes(
                (old(self).states@.len(), old(self).spec_is_empty()), (nfa.states@.len(), nfa.spec_is_empty()))),
            r is Ok ==> final(self).pattern == old(self).pattern,
            old(self).states@.len() + nfa.states@.len() + 2 <= usize::MAX ==> r is Ok,
            r is Ok ==> crate::nfa_language::alt_of(*old(self), nfa, *final(self)),
            r is Ok ==> final(self).states@.len() <= usize::MAX,
    {
        if self.states.len() >= usize::MAX - 2 || nfa.states.len() > usize::MAX - 2 - self.states.len() {
            return Err(String::from_str("the automaton has too many states"));
        }
        let l1 = self.states.len();
        let l2 = nfa.states.len();
        let ghost nfa_states = nfa.states@;
        let ghost nfa_end = nfa.end_state;
        let ghost nfa_start0 = nfa.start_state;
        let ghost was_empty = self.spec_is_empty();
        let ghost n2 = nfa;
        self.alternation(nfa);
        proof {
            if !was_empty {
                assert forall|i: int| 0 <= i < self.states@.len() implies (#[trigger] self.states@[i]).accept_data is None by {
                    if l1 <= i < l1 + l2 {
                        if i - l1 == nfa_end {
                            assert(shifted_state_with(nfa_states[i - l1], self.states@[l1 + nfa_end], l1 as int, seq![epsilon((l1 + l2 + 1) as usize)]));
                        } else {
                            assert(shifted_state(nfa_states[i - l1], self.states@[l1 + (i - l1)], l1 as int));
                        }
                    } else if i < l1 && i != old(self).end_state {
                        assert(self.states@[i] == old(self).states@[i]);
                    }
                }
                lemma_alternation_unconverted(*old(self), n2, *self);
            }
        }
        Ok(())
    }
}


/// Joining two automata without disjoint classes as alternatives adds none.
proof fn lemma_alternation_unconverted(before: Nfa, n2: Nfa, after: Nfa)
    requires
        before.wf(),
        n2.wf(),
        unconverted(before),
        unconverted(n2),
        before.spec_is_empty() ==> after.states@ == n2.states@,
        !before.spec_is_empty() ==> {
            let l1 = before.states@.len();
            let l2 = n2.states@.len();
            let s = (l1 + l2) as int;
            let e = (l1 + l2 + 1) as int;
            &&& after.states@.len() == l1 + l2 + 2
            &&& forall|i: int| 0 <= i < l1 && i != before.end_state ==> #[trigger] after.states@[i] == before.states@[i]
            &&& extended_state(before.states@[before.end_state as int], after.states@[before.end_state as int],
                seq![epsilon(e as usize)])
            &&& forall|i: int| 0 <= i < l2 && i != n2.end_state ==>
                shifted_state(n2.states@[i], #[trigger] after.states@[l1 + i], l1 as int)
            &&& shifted_state_with(n2.states@[n2.end_state as int], after.states@[l1 + n2.end_state],
                l1 as int, seq![epsilon(e as usize)])
            &&& after.states@[s].transitions@ == seq![epsilon(before.start_state), epsilon((n2.start_state + l1) as usize)]
            &&& after.states@[e].transitions@.len() == 0
        },
    ensures
        unconverted(after),
{
    if !before.spec_is_empty() {
        let l1 = before.states@.len() as int;
        let l2 = n2.states@.len() as int;
        let e = (l1 + l2 + 1) as usize;
        let nfa_end = n2.end_state as int;
        assert forall|i: int| 0 <= i < after.states@.len() implies no_range((#[trigger] after.states@[i]).transitions@) by {
            if l1 <= i < l1 + l2 {
                if i - l1 == nfa_end {
                    assert(shifted_state_with(n2.states@[i - l1], after.states@[l1 + nfa_end], l1, seq![epsilon(e)]));
                    lemma_no_range_parts(n2.states@[i - l1].transitions@, l1, seq![epsilon(e)]);
                } else {
                    assert(shifted_state(n2.states@[i - l1], after.states@[l1 + (i - l1)], l1));
                    lemma_no_range_parts(n2.states@[i - l1].transitions@, l1, Seq::empty());
                    assert(n2.states@[i - l1].transitions@.map_values(|tr: NfaTransition| shift_transition(tr, l1))
                        + Seq::<NfaTransition>::empty() =~= after.states@[i].transitions@);
                }
            } else if i < l1 && i != before.end_state {
                assert(after.states@[i] == before.states@[i]);
            } else if i < l1 {
                lemma_no_range_parts(before.states@[i].transitions@, 0, seq![epsilon(e)]);
            } else if i == l1 + l2 {
                let st = seq![epsilon(before.start_state), epsilon((n2.start_state + l1) as usize)];
                lemma_no_range_parts(Seq::empty(), 0, st);
                assert(Seq::<NfaTransition>::empty() + st =~= after.states@[i].transitions@);
            } else {
                let ts = after.states@[i].transitions@;
                assert(i == l1 + l2 + 1);
                assert forall|k: int| 0 <= k < ts.len() implies
                    !((#[trigger] ts[k]).character_class matches Some(CharacterClassType::Range(_, _))) by {}
            }
        }
    }
}


/// The error for a regular expression feature the scanner does not support.
fn unsupported(feature: &str) -> (r: String)
    ensures
        r@ == "The regex feature '"@ + feature@ + "' is not supported."@,
{
    let mut msg = String::from_str("The regex feature '");
    msg.append(feature);
    msg.append("' is not supported.");
    msg
}

impl Nfa {
    /// Builds the automaton of an expression by Thompson's construction; for
    /// a well-formed expression it accepts exactly the expression's words.
    /// Fails for an unsupported feature, and else only where the states would
    /// be too many to count.
    pub fn try_from_ast(ast: &RegexAst) -> (r: Result<Nfa, String>)
        ensures
            r matches Ok(n) ==> built(n, nfa_shape(*ast)),
            *ast is Class ==> (r matches Ok(n) && n.start_state == 0 && n.end_state == 1),
            !ast_supported(*ast) ==> r is Err,
            ast_supported(*ast) && ast_fits(*ast) ==> r is Ok,
            r is Ok && well_formed_regex(*ast) ==> forall|w: Seq<char>| #[trigger] regex_matches(*ast, w) ==> accepts_word(r->Ok_0, w),
            r is Ok && well_formed_regex(*ast) ==> forall|w: Seq<char>| #[trigger] accepts_word(r->Ok_0, w) ==> regex_matches(*ast, w),
        decreases ast,
    {
        let ghost fits = ast_supported(*ast) && ast_fits(*ast);
        let ghost kept = well_formed_regex(*ast);
        proof {
            lemma_shape_ok(*ast);
        }
        match ast {
            RegexAst::Empty => {
                let nfa = Nfa::new();
                proof {
                    assert forall|w: Seq<char>| #[trigger] regex_matches(*ast, w) implies accepts_word(nfa, w) by {
                        crate::nfa_language::lemma_empty_accepts(nfa, w);
                    }
                    assert forall|w: Seq<char>| #[trigger] accepts_word(nfa, w) implies regex_matches(*ast, w) by {
                        crate::nfa_language::lemma_empty_accepts(nfa, w);
                    }
                }
                Ok(nfa)
            },
            RegexAst::Look(name) => Err(unsupported(name.as_str())),
            RegexAst::Literal(bytes) => Self::literal_nfa(bytes),
            RegexAst::Class(ranges) => {
                let nfa = Self::class_nfa(ranges);
                proof {
                    assert forall|w: Seq<char>| #[trigger] regex_matches(*ast, w) implies accepts_word(nfa, w) by {
                        assert(crate::nfa_language::class_matches(ranges@, w));
                    }
                    assert forall|w: Seq<char>| #[trigger] accepts_word(nfa, w) implies regex_matches(*ast, w) by {
                        assert(crate::nfa_language::class_matches(ranges@, w));
                    }
                }
                Ok(nfa)
            },
            RegexAst::Repetition { min, max, greedy, sub } => {
                if !*greedy {
                    return Err(unsupported("non-greedy repetitions; consider using different scanner modes instead"));
                }
                let nfa2 = match Self::try_from_ast(sub) {
                    Ok(n) => n,
                    Err(e) => {
                        return Err(e);
                    },
                };
                Self::repetition_nfa(nfa2, sub, min, max)
            },
            RegexAst::Capture(sub) => {
                let r = Self::try_from_ast(sub);
                proof {
                    if r is Ok && well_formed_regex(*ast) {
                        let n = r->Ok_0;
                        assert forall|w: Seq<char>| #[trigger] regex_matches(*ast, w) implies accepts_word(n, w) by {
                            assert(regex_matches(**sub, w));
                        }
                        assert forall|w: Seq<char>| #[trigger] accepts_word(n, w) implies regex_matches(*ast, w) by {
                            assert(regex_matches(**sub, w));
                        }
                    }
                }
                r
            },
            RegexAst::Concat(subs) => {
                let mut nfa = Nfa::new();
                proof {
                    assert forall|w: Seq<char>| #[trigger] crate::nfa_language::concat_matches(subs@, 0, w) implies accepts_word(nfa, w) by {
                        crate::nfa_language::lemma_empty_accepts(nfa, w);
                    }
                    assert forall|w: Seq<char>| #[trigger] accepts_word(nfa, w) implies crate::nfa_language::concat_matches(subs@, 0, w) by {
                        crate::nfa_language::lemma_empty_accepts(nfa, w);
                    }
                }
                let mut i: usize = 0;
                while i < subs.len()
                    invariant
                        i <= subs@.len(),
                        built(nfa, concat_fold(subs@, i as int)),
                        all_supported(subs@, i as int),
                        *ast == RegexAst::Concat(*subs),
                        fits == (ast_supported(*ast) && ast_fits(*ast)),
                        kept == well_formed_regex(*ast),
                        kept ==> forall|w: Seq<char>| #[trigger] crate::nfa_language::concat_matches(subs@, i as int, w) ==> accepts_word(nfa, w),
                        kept ==> forall|w: Seq<char>| #[trigger] accepts_word(nfa, w) ==> crate::nfa_language::concat_matches(subs@, i as int, w),
                    decreases subs.len() - i,
                {
                    proof {
                        lemma_all_at(subs@, subs@.len() as int, i as int);
                        lemma_concat_fold(subs@, subs@.len() as int);
                        lemma_concat_fold(subs@, i as int + 1);
                    }
                    proof {
                        assert(decreases_to!(*ast => (*ast)->Concat_0));
                        assert(decreases_to!(*subs => subs@));
                        assert(decreases_to!(subs@ => subs@[i as int]));
                    }
                    let nfa2 = match Self::try_from_ast(&subs[i]) {
                        Ok(n) => n,
                        Err(e) => {
                            return Err(e);
                        },
                    };
                    let ghost a = nfa;
                    let ghost b = nfa2;
                    match nfa.try_concat(nfa2) {
                        Ok(()) => {},
                        Err(e) => {
                            return Err(e);
                        },
                    }
                    proof {
                        if kept {
                            crate::nfa_language::lemma_concat_step(subs@, i as int, a, b, nfa);
                            crate::nfa_language::lemma_concat_step_sound(subs@, i as int, a, b, nfa);
                        }
                    }
                    i = i + 1;
                }
                proof {
                    if kept {
                        assert forall|w: Seq<char>| #[trigger] regex_matches(*ast, w) implies accepts_word(nfa, w) by {
                            assert(crate::nfa_language::concat_matches(subs@, subs@.len() as int, w));
                        }
                        assert forall|w: Seq<char>| #[trigger] accepts_word(nfa, w) implies regex_matches(*ast, w) by {
                            assert(crate::nfa_language::concat_matches(subs@, subs@.len() as int, w));
                        }
                    }
                }
                Ok(nfa)
            },
            RegexAst::Alternation(subs) => {
                let mut nfa = Nfa::new();
                proof {
                    assert forall|w: Seq<char>| #[trigger] crate::nfa_language::alt_matches(subs@, 0, w) implies accepts_word(nfa, w) by {
                        crate::nfa_language::lemma_empty_accepts(nfa, w);
                    }
                }
                let mut i: usize = 0;
                while i < subs.len()
                    invariant
                        i <= subs@.len(),
                        built(nfa, alternation_fold(subs@, i as int)),
                        all_supported(subs@, i as int),
                        *ast == RegexAst::Alternation(*subs),
                        fits == (ast_supported(*ast) && ast_fits(*ast)),
                        kept == well_formed_regex(*ast),
                        kept ==> forall|w: Seq<char>| #[trigger] crate::nfa_language::alt_matches(subs@, i as int, w) ==> accepts_word(nfa, w),
                        kept && i > 0 ==> forall|w: Seq<char>| #[trigger] accepts_word(nfa, w) ==> crate::nfa_language::alt_matches(subs@, i as int, w),
                    decreases subs.len() - i,
                {
                    proof {
                        lemma_all_at(subs@, subs@.len() as int, i as int);
                        lemma_alternation_fold(subs@, subs@.len() as int);
                        lemma_alternation_fold(subs@, i as int + 1);
                    }
                    proof {
                        assert(decreases_to!(*ast => (*ast)->Alternation_0));
                        assert(decreases_to!(*subs => subs@));
                        assert(decreases_to!(subs@ => subs@[i as int]));
                    }
                    let nfa2 = match Self::try_from_ast(&subs[i]) {
                        Ok(n) => n,
                        Err(e) => {
                            return Err(e);
                        },
                    };
                    let ghost a = nfa;
                    let ghost b = nfa2;
                    match nfa.try_alternation(nfa2) {
                        Ok(()) => {},
                        Err(e) => {
                            return Err(e);
                        },
                    }
                    proof {
                        if kept {
                            if i > 0 {
                                lemma_alternation_fold_empty(subs@, i as int);
                            }
                            crate::nfa_language::lemma_alternation_step(subs@, i as int, a, b, nfa);
                            crate::nfa_language::lemma_alternation_step_sound(subs@, i as int, a, b, nfa);
                        }
                    }
                    i = i + 1;
                }
                proof {
                    if kept {
                        assert forall|w: Seq<char>| #[trigger] regex_matches(*ast, w) implies accepts_word(nfa, w) by {
                            assert(crate::nfa_language::alt_matches(subs@, subs@.len() as int, w));
                        }
                        assert forall|w: Seq<char>| #[trigger] accepts_word(nfa, w) implies regex_matches(*ast, w) by {
                            assert(crate::nfa_language::alt_matches(subs@, subs@.len() as int, w));
                        }
                    }
                }
                Ok(nfa)
            },
        }
    }
}


impl Nfa {
    /// The automaton of a literal: a chain of states, one transition per
    /// character. Fails where the bytes are no valid UTF-8, or where the states
    /// would be too many to count.
    fn literal_nfa(bytes: &Vec<u8>) -> (r: Result<Nfa, String>)
        ensures
            r matches Ok(n) ==> built(n, nfa_shape(RegexAst::Literal(*bytes))),
            !ast_supported(RegexAst::Literal(*bytes)) ==> r is Err,
            ast_supported(RegexAst::Literal(*bytes)) && ast_fits(RegexAst::Literal(*bytes)) ==> r is Ok,
            r is Ok ==> forall|w: Seq<char>| #[trigger] regex_matches(RegexAst::Literal(*bytes), w) ==> accepts_word(r->Ok_0, w),
            r is Ok ==> forall|w: Seq<char>| #[trigger] accepts_word(r->Ok_0, w) ==> regex_matches(RegexAst::Literal(*bytes), w),
    {
        let ghost lit_ast = RegexAst::Literal(*bytes);
        let ghost fits = ast_supported(lit_ast) && ast_fits(lit_ast);
        let text = match utf8_to_string(bytes.as_slice()) {
            Some(t) => t,
            None => {
                return Err(String::from_str("a literal of the expression is no valid UTF-8"));
            },
        };
        let chars = str_to_chars(text.as_str());
        assert(fits ==> chars@.len() + 1 <= usize::MAX - 3) by {
            if fits {
                assert(nfa_shape(lit_ast).0 == 1 + vstd::utf8::decode_utf8(bytes@).len());
            }
        }
        let mut nfa = Nfa::new();
        let mut start_state = nfa.end_state;
        let mut i: usize = 0;
        while i < chars.len()
            invariant
                i <= chars@.len(),
                fits ==> chars@.len() + 1 <= usize::MAX - 3,
                fits == (ast_supported(lit_ast) && ast_fits(lit_ast)),
                lit_ast == RegexAst::Literal(*bytes),
                nfa.wf(),
                nfa.accept_free(),
                nfa.states@.len() == 1 + i,
                start_state == nfa.end_state,
                nfa.start_state == 0,
                i == 0 ==> nfa.spec_is_empty(),
                i > 0 ==> nfa.end_state == i,
                start_state == i,
                nfa.states@[i as int].transitions@.len() == 0,
                unconverted(nfa),
                runs(nfa, 0, chars@.take(i as int), i as int, i as nat),
                forall|q: int| 0 <= q < i ==> #[trigger] crate::nfa_language::chain_link(nfa, q, chars@[q]),
            decreases chars.len() - i,
        {
            if nfa.states.len() == usize::MAX {
                return Err(String::from_str("the automaton has too many states"));
            }
            let ghost before = nfa;
            let end_state = nfa.new_state();
            nfa.end_state = end_state;
            nfa.add_transition(start_state, CharacterClassKind::Literal(chars[i]), end_state);
            proof {
                crate::nfa_language::lemma_literal_step(before, nfa, chars@.take(i as int), i as int, chars@[i as int]);
                assert(chars@.take(i as int).push(chars@[i as int]) =~= chars@.take(i + 1));
                assert forall|q: int| 0 <= q < i + 1 implies #[trigger] crate::nfa_language::chain_link(nfa, q, chars@[q]) by {
                    if q < i {
                        assert(crate::nfa_language::chain_link(before, q, chars@[q]));
                        assert(nfa.states@[q] == before.states@[q]);
                    }
                }
            }
            start_state = end_state;
            i = i + 1;
        }
        nfa.end_state = start_state;
        proof {
            assert(chars@.take(chars@.len() as int) =~= chars@);
            assert forall|w: Seq<char>| #[trigger] regex_matches(lit_ast, w) implies accepts_word(nfa, w) by {
                assert(w == chars@);
                assert(runs(nfa, nfa.start_state as int, w, nfa.end_state as int, chars@.len()));
            }
            assert forall|w: Seq<char>| #[trigger] accepts_word(nfa, w) implies regex_matches(lit_ast, w) by {
                let m = choose|m: nat| runs(nfa, nfa.start_state as int, w, nfa.end_state as int, m);
                crate::nfa_language::lemma_chain_sound(nfa, chars@, 0, w, m);
                assert(chars@.subrange(0, chars@.len() as int) =~= chars@);
            }
        }
        Ok(nfa)
    }

    /// The automaton of a character class: one transition on its ranges.
    fn class_nfa(ranges: &Vec<(char, char)>) -> (nfa: Nfa)
        ensures
            built(nfa, (2, false)),
            nfa.start_state == 0 && nfa.end_state == 1,
            forall|w: Seq<char>| #[trigger] crate::nfa_language::class_matches(ranges@, w) ==> accepts_word(nfa, w),
            forall|w: Seq<char>| #[trigger] accepts_word(nfa, w) ==> crate::nfa_language::class_matches(ranges@, w),
    {
        let mut nfa = Nfa::new();
        let start_state = nfa.end_state;
        let end_state = nfa.new_state();
        nfa.end_state = end_state;
        let mut rs: Vec<(char, char)> = Vec::new();
        let mut t: usize = 0;
        while t < ranges.len()
            invariant
                t <= ranges@.len(),
                rs@ == ranges@.take(t as int),
            decreases ranges.len() - t,
        {
            rs.push(ranges[t]);
            t = t + 1;
        }
        let ghost rv = rs@;
        let ghost mid = nfa;
        nfa.add_transition(start_state, CharacterClassKind::Ranges(rs), end_state);
        assert(nfa.accept_free()) by {
            assert(nfa.states@[0].accept_data is None);
        }
        proof {
            assert(rv =~= ranges@);
            assert(mid.states@[0].transitions@.len() == 0);
            let tr = nfa.states@[0].transitions@[0];
            assert forall|w: Seq<char>| #[trigger] crate::nfa_language::class_matches(ranges@, w) implies accepts_word(nfa, w) by {
                let i = choose|i: int| 0 <= i < ranges@.len() && (#[trigger] ranges@[i]).0 <= w[0] && w[0] <= ranges@[i].1;
                assert(rv[i] == ranges@[i]);
                match tr.character_class {
                    Some(CharacterClassType::Kind(CharacterClassKind::Ranges(r2))) => {
                        assert(r2@ == rv);
                        assert(r2@[i].0 <= w[0] && w[0] <= r2@[i].1);
                    },
                    _ => {
                        assert(false);
                    },
                }
                assert(crate::nfa_language::reads(tr, w[0]));
                assert(w.drop_first().len() == 0);
                assert(runs(nfa, 1, w.drop_first(), 1, 0));
                assert(runs(nfa, 0, w, 1, 1));
            }
        }
        proof {
            let tr = nfa.states@[0].transitions@[0];
            assert(nfa.states@[1].transitions@.len() == 0);
            assert forall|w: Seq<char>| #[trigger] accepts_word(nfa, w) implies crate::nfa_language::class_matches(ranges@, w) by {
                let m = choose|m: nat| runs(nfa, 0, w, 1, m);
                assert(m > 0);
                let k = choose|k: int| #![trigger nfa.states@[0].transitions@[k]]
                    0 <= k < nfa.states@[0].transitions@.len() && {
                        let t = nfa.states@[0].transitions@[k];
                        ||| t.character_class is None && runs(nfa, t.target as int, w, 1, (m - 1) as nat)
                        ||| w.len() > 0 && crate::nfa_language::reads(t, w[0]) && runs(nfa, t.target as int, w.drop_first(), 1, (m - 1) as nat)
                    };
                assert(k == 0);
                assert(w.len() > 0 && crate::nfa_language::reads(tr, w[0]));
                crate::nfa_language::lemma_runs_stuck(nfa, 1, w.drop_first(), 1, (m - 1) as nat);
                match tr.character_class {
                    Some(CharacterClassType::Kind(CharacterClassKind::Ranges(r2))) => {
                        assert(r2@ == rv);
                        let i = choose|i: int| 0 <= i < r2@.len() && (#[trigger] r2@[i]).0 <= w[0] && w[0] <= r2@[i].1;
                        assert(ranges@[i] == r2@[i]);
                    },
                    _ => {
                        assert(false);
                    },
                }
            }
        }
        nfa
    }

    /// The automaton of a greedy repetition of the expression whose automaton
    /// is `nfa2`: `min` copies, then optional copies up to `max`, or a
    /// repeatable copy where there is no greatest count. Fails where the
    /// states would be too many to count.
    fn repetition_nfa(nfa2: Nfa, sub: &Box<RegexAst>, min: &u32, max: &Option<u32>) -> (r: Result<Nfa, String>)
        requires
            built(nfa2, nfa_shape(**sub)),
            well_formed_regex(**sub) ==> forall|w: Seq<char>| #[trigger] regex_matches(**sub, w) ==> accepts_word(nfa2, w),
            well_formed_regex(**sub) ==> forall|w: Seq<char>| #[trigger] accepts_word(nfa2, w) ==> regex_matches(**sub, w),
        ensures
            r matches Ok(n) ==> built(n, nfa_shape(RegexAst::Repetition { min: *min, max: *max, greedy: true, sub: *sub })),
            ({
                let rep_ast = RegexAst::Repetition { min: *min, max: *max, greedy: true, sub: *sub };
                ast_supported(rep_ast) && ast_fits(rep_ast) ==> r is Ok
            }),
            ({
                let rep_ast = RegexAst::Repetition { min: *min, max: *max, greedy: true, sub: *sub };
                r is Ok && well_formed_regex(rep_ast) ==> forall|w: Seq<char>| #[trigger] regex_matches(rep_ast, w) ==> accepts_word(r->Ok_0, w)
            }),
            ({
                let rep_ast = RegexAst::Repetition { min: *min, max: *max, greedy: true, sub: *sub };
                r is Ok && well_formed_regex(rep_ast) ==> forall|w: Seq<char>| #[trigger] accepts_word(r->Ok_0, w) ==> regex_matches(rep_ast, w)
            }),
    {
        let ghost rep_ast = RegexAst::Repetition { min: *min, max: *max, greedy: true, sub: *sub };
        let ghost fits = ast_supported(rep_ast) && ast_fits(rep_ast);
        let ghost kept = well_formed_regex(rep_ast);
        let ghost sb = nfa_shape(**sub);
        let ghost base = repeat_shapes((1, true), sb, *min as nat);
        proof {
            lemma_shape_ok(**sub);
            lemma_repeat_shapes((1, true), sb, *min as nat);
            match *max {
                Some(mx) => {
                    lemma_repeat_shapes(base, (sb.0 + 1, false), if mx > *min { (mx - *min) as nat } else { 0 });
                },
                None => {},
            }
            if fits {
                assert(ast_fits(**sub));
                assert(nfa_shape(rep_ast).0 >= base.0);
            }
        }
        let mut nfa = Nfa::new();
        proof {
            assert forall|w: Seq<char>| #[trigger] crate::nfa_language::power(**sub, 0, w) implies accepts_word(nfa, w) by {
                crate::nfa_language::lemma_empty_accepts(nfa, w);
            }
            assert forall|w: Seq<char>| #[trigger] accepts_word(nfa, w) implies crate::nfa_language::power(**sub, 0, w) by {
                crate::nfa_language::lemma_empty_accepts(nfa, w);
            }
        }
        let mut i: u32 = 0;
        while i < *min
            invariant
                i <= *min,
                built(nfa, repeat_shapes((1, true), sb, i as nat)),
                built(nfa2, sb),
                shape_ok(sb),
                base == repeat_shapes((1, true), sb, *min as nat),
                fits ==> base.0 <= usize::MAX - 3 && sb.0 <= usize::MAX - 3,
                fits == (ast_supported(rep_ast) && ast_fits(rep_ast)),
                rep_ast == (RegexAst::Repetition { min: *min, max: *max, greedy: true, sub: *sub }),
                forall|j: nat| j <= *min ==> (#[trigger] repeat_shapes((1, true), sb, j)).0 <= base.0,
                kept == well_formed_regex(rep_ast),
                kept ==> forall|v: Seq<char>| #[trigger] regex_matches(**sub, v) ==> accepts_word(nfa2, v),
                kept ==> forall|w: Seq<char>| #[trigger] crate::nfa_language::power(**sub, i as int, w) ==> accepts_word(nfa, w),
                kept ==> forall|v: Seq<char>| #[trigger] accepts_word(nfa2, v) ==> regex_matches(**sub, v),
                kept ==> forall|w: Seq<char>| #[trigger] accepts_word(nfa, w) ==> crate::nfa_language::power(**sub, i as int, w),
            decreases *min - i,
        {
            assert(repeat_shapes((1, true), sb, (i + 1) as nat).0 <= base.0);
            let copy = nfa2.duplicate();
            let ghost a = nfa;
            let ghost b = copy;
            match nfa.try_concat(copy) {
                Ok(()) => {},
                Err(e) => {
                    return Err(e);
                },
            }
            proof {
                if kept {
                    assert forall|v: Seq<char>| #[trigger] regex_matches(**sub, v) implies accepts_word(b, v) by {
                        crate::nfa_language::lemma_accepts_copy(nfa2, b, v);
                    }
                    crate::nfa_language::lemma_power_step(**sub, i as int, a, b, nfa);
                    assert forall|v: Seq<char>| #[trigger] accepts_word(b, v) implies regex_matches(**sub, v) by {
                        crate::nfa_language::lemma_accepts_copy_back(nfa2, b, v);
                    }
                    crate::nfa_language::lemma_power_step_sound(**sub, i as int, a, b, nfa);
                }
            }
            i = i + 1;
        }
        match max {
            Some(mx) => {
                if nfa2.states.len() == usize::MAX {
                    return Err(String::from_str("the automaton has too many states"));
                }
                let mut zero_or_one = nfa2.duplicate();
                let ghost zb = zero_or_one;
                zero_or_one.zero_or_one();
                proof {
                    if kept {
                        assert(crate::nfa_language::optional_of(zb, zero_or_one));
                        crate::nfa_language::lemma_optional_accepts(zb, zero_or_one, Seq::empty());
                        assert forall|v: Seq<char>| #[trigger] regex_matches(**sub, v) implies accepts_word(zero_or_one, v) by {
                            crate::nfa_language::lemma_accepts_copy(nfa2, zb, v);
                            crate::nfa_language::lemma_optional_accepts(zb, zero_or_one, v);
                        }
                        assert forall|v: Seq<char>| #[trigger] accepts_word(zero_or_one, v) implies v.len() == 0 || regex_matches(**sub, v) by {
                            crate::nfa_language::lemma_optional_sound(zb, zero_or_one, v);
                            if v.len() > 0 {
                                crate::nfa_language::lemma_accepts_copy_back(nfa2, zb, v);
                            }
                        }
                        assert forall|w: Seq<char>| #[trigger] accepts_word(nfa, w) implies crate::nfa_language::power_between(**sub, *min as int, *min as int, w) by {
                            assert(crate::nfa_language::power(**sub, *min as int, w));
                        }
                    }
                }
                let ghost zs = (sb.0 + 1, false);
                let ghost k: nat = if *mx > *min { (*mx - *min) as nat } else { 0 };
                assert(built(zero_or_one, zs));
                let mut j: u32 = *min;
                while j < *mx
                    invariant
                        *min <= j,
                        *mx > *min ==> j <= *mx,
                        *mx <= *min ==> j == *min,
                        built(nfa, repeat_shapes(base, zs, (j - *min) as nat)),
                        built(zero_or_one, zs),
                        k == if *mx > *min { (*mx - *min) as nat } else { 0 },
                        fits ==> repeat_shapes(base, zs, k).0 <= usize::MAX - 3 && sb.0 <= usize::MAX - 3,
                        fits == (ast_supported(rep_ast) && ast_fits(rep_ast)),
                        rep_ast == (RegexAst::Repetition { min: *min, max: *max, greedy: true, sub: *sub }),
                        forall|l: nat| l <= k ==> (#[trigger] repeat_shapes(base, zs, l)).0 <= repeat_shapes(base, zs, k).0,
                        kept == well_formed_regex(rep_ast),
                        kept ==> accepts_word(zero_or_one, Seq::empty()),
                        kept ==> forall|v: Seq<char>| #[trigger] regex_matches(**sub, v) ==> accepts_word(zero_or_one, v),
                        kept ==> forall|c: int, w: Seq<char>| *min <= c <= j && #[trigger] crate::nfa_language::power(**sub, c, w)
                            ==> accepts_word(nfa, w),
                        kept ==> forall|v: Seq<char>| #[trigger] accepts_word(zero_or_one, v) ==> v.len() == 0 || regex_matches(**sub, v),
                        kept ==> forall|w: Seq<char>| #[trigger] accepts_word(nfa, w) ==> crate::nfa_language::power_between(**sub, *min as int, j as int, w),
                    decreases *mx - j,
                {
                    assert(repeat_shapes(base, zs, (j + 1 - *min) as nat).0 <= repeat_shapes(base, zs, k).0);
                    let copy = zero_or_one.duplicate();
                    let ghost a = nfa;
                    let ghost z = copy;
                    match nfa.try_concat(copy) {
                        Ok(()) => {},
                        Err(e) => {
                            return Err(e);
                        },
                    }
                    proof {
                        if kept {
                            crate::nfa_language::lemma_accepts_copy(zero_or_one, z, Seq::empty());
                            assert forall|v: Seq<char>| #[trigger] regex_matches(**sub, v) implies accepts_word(z, v) by {
                                crate::nfa_language::lemma_accepts_copy(zero_or_one, z, v);
                            }
                            crate::nfa_language::lemma_optional_step(**sub, *min as int, j as int, a, z, nfa);
                            assert forall|v: Seq<char>| #[trigger] accepts_word(z, v) implies v.len() == 0 || regex_matches(**sub, v) by {
                                crate::nfa_language::lemma_accepts_copy_back(zero_or_one, z, v);
                            }
                            crate::nfa_language::lemma_optional_step_sound(**sub, *min as int, j as int, a, z, nfa);
                        }
                    }
                    j = j + 1;
                }
                proof {
                    if kept {
                        assert forall|w: Seq<char>| #[trigger] regex_matches(rep_ast, w) implies accepts_word(nfa, w) by {
                            let c = choose|c: nat| #[trigger] crate::nfa_language::count_in(*min, *max, c)
                                && crate::nfa_language::power(**sub, c as int, w);
                            assert(crate::nfa_language::power(**sub, c as int, w));
                        }
                        assert forall|w: Seq<char>| #[trigger] accepts_word(nfa, w) implies regex_matches(rep_ast, w) by {
                            assert(crate::nfa_language::power_between(**sub, *min as int, j as int, w));
                            let c = choose|c: int| *min <= c <= j && #[trigger] crate::nfa_language::power(**sub, c, w);
                            assert(crate::nfa_language::count_in(*min, *max, c as nat));
                        }
                    }
                }
                Ok(nfa)
            },
            None => {
                if nfa2.states.len() > usize::MAX - 2 {
                    return Err(String::from_str("the automaton has too many states"));
                }
                let mut zero_or_more = nfa2.duplicate();
                let ghost before = zero_or_more;
                zero_or_more.zero_or_more();
                let ghost zm = zero_or_more;
                let ghost a = nfa;
                assert forall|u: int| 0 <= u < zero_or_more.states@.len() implies
                    (#[trigger] zero_or_more.states@[u]).accept_data is None by {
                    if u < before.states@.len() && u != before.end_state {
                        assert(zero_or_more.states@[u] == before.states@[u]);
                    }
                }
                match nfa.try_concat(zero_or_more) {
                    Ok(()) => {},
                    Err(e) => {
                        return Err(e);
                    },
                }
                proof {
                    if kept {
                        assert forall|v: Seq<char>| #[trigger] regex_matches(**sub, v) implies accepts_word(before, v) by {
                            crate::nfa_language::lemma_accepts_copy(nfa2, before, v);
                        }
                        assert(crate::nfa_language::repeatable_of(before, zm));
                        crate::nfa_language::lemma_star_final(**sub, *min as int, a, before, zm, nfa);
                        assert forall|v: Seq<char>| #[trigger] accepts_word(before, v) implies regex_matches(**sub, v) by {
                            crate::nfa_language::lemma_accepts_copy_back(nfa2, before, v);
                        }
                        crate::nfa_language::lemma_star_final_sound(**sub, *min as int, a, before, zm, nfa);
                        assert forall|w: Seq<char>| #[trigger] accepts_word(nfa, w) implies regex_matches(rep_ast, w) by {
                            let c = choose|c: int| *min <= c && #[trigger] crate::nfa_language::power(**sub, c, w);
                            assert(crate::nfa_language::count_in(*min, *max, c as nat));
                        }
                        assert forall|w: Seq<char>| #[trigger] regex_matches(rep_ast, w) implies accepts_word(nfa, w) by {
                            let c = choose|c: nat| #[trigger] crate::nfa_language::count_in(*min, *max, c)
                                && crate::nfa_language::power(**sub, c as int, w);
                            assert(crate::nfa_language::power(**sub, c as int, w));
                        }
                    }
                }
                Ok(nfa)
            },
        }
    }

}

/// The pattern `p` with priority `k`.
pub open spec fn prioritized(p: Pattern, k: usize) -> Pattern {
    Pattern { priority: k, ..p }
}

/// The accepting states of `nfa` accept patterns among the first `n` of
/// `patterns`, each with its index as priority.
pub open spec fn accepts_patterns(nfa: Nfa, patterns: Seq<Pattern>, n: int) -> bool {
    &&& forall|i: int| 0 <= i < nfa.states@.len() && (#[trigger] nfa.states@[i]).accept_data is Some ==> {
        let p = nfa.states@[i].accept_data->0;
        &&& 0 <= p.priority < n
        &&& pattern_same(p, prioritized(patterns[p.priority as int], p.priority))
    }
}

/// Whether `regex_syntax` parses the expression and its automaton can be
/// built: the features of its tree are supported and its automata fit.
pub open spec fn expression_builds(re: Seq<char>) -> bool {
    &&& regex_syntax_error(re) is None
    &&& ast_supported(regex_tree(re))
    &&& ast_fits(regex_tree(re))
}

/// The shape of the automaton of the first `n` patterns joined as
/// alternatives, each by the tree of its expression.
pub open spec fn patterns_shape(patterns: Seq<Pattern>, n: int) -> (nat, bool)
    decreases n,
{
    if n <= 0 || n > patterns.len() {
        (1, true)
    } else {
        alternation_shapes(patterns_shape(patterns, n - 1), nfa_shape(regex_tree(patterns[n - 1].pattern@)))
    }
}

/// Whether the automaton of pattern `k` can be built and joined to those of
/// the patterns before it: its expression parses, is supported and fits, and
/// the joined states can be counted.
pub open spec fn pattern_joins(patterns: Seq<Pattern>, k: int) -> bool {
    let t = regex_tree(patterns[k].pattern@);
    let before = patterns_shape(patterns, k).0;
    &&& regex_syntax_error(patterns[k].pattern@) is None
    &&& ast_supported(t)
    &&& ast_fits(t)
    &&& before < usize::MAX - 2
    &&& nfa_shape(t).0 <= usize::MAX - 2 - before
}

/// Whether pattern `j` keeps its accepting state among the first `n`
/// patterns joined as alternatives: it is the last of them, or the automaton
/// of the patterns up to it is not the one-state automaton that joining the
/// next alternative replaces.
pub open spec fn pattern_kept(patterns: Seq<Pattern>, j: int, n: int) -> bool {
    j == n - 1 || !patterns_shape(patterns, j + 1).1
}

/// Whether, for each of the first `n` patterns that is kept and whose tree is
/// well formed, the automaton reads exactly the words of the pattern into a
/// state that accepts with the pattern's index as priority.
pub open spec fn patterns_language(nfa: Nfa, patterns: Seq<Pattern>, n: int) -> bool {
    forall|w: Seq<char>, j: int| 0 <= j < n && well_formed_regex(regex_tree(patterns[j].pattern@)) && pattern_kept(patterns, j, n)
        ==> (#[trigger] accepts_word_as(nfa, w, j) <==> regex_matches(regex_tree(patterns[j].pattern@), w))
}

/// Once the automaton of the first patterns is not the one-state automaton,
/// it stays so.
proof fn lemma_shape_empty_prefix(patterns: Seq<Pattern>, m: int, m2: int)
    requires
        0 <= m2 <= m <= patterns.len(),
        patterns_shape(patterns, m).1,
    ensures
        patterns_shape(patterns, m2).1,
    decreases m,
{
    if m2 < m {
        assert(patterns_shape(patterns, m - 1).1);
        lemma_shape_empty_prefix(patterns, m - 1, m2);
    }
}

/// Joining the automaton of pattern `k` as an alternative keeps the words of
/// the patterns before it and adds those of pattern `k`.
proof fn lemma_patterns_language_step(before: Nfa, n2: Nfa, after: Nfa, patterns: Seq<Pattern>, k: int)
    requires
        0 <= k < patterns.len(),
        before.wf(),
        n2.wf(),
        after.wf(),
        after.states@.len() <= usize::MAX,
        end_free(before),
        end_free(n2),
        accepts_patterns(before, patterns, k),
        patterns_language(before, patterns, k),
        before.spec_is_empty() == patterns_shape(patterns, k).1,
        labelled(n2, n2.end_state as int, k),
        forall|i: int| 0 <= i < n2.states@.len() && i != n2.end_state ==> (#[trigger] n2.states@[i]).accept_data is None,
        well_formed_regex(regex_tree(patterns[k].pattern@)) ==> forall|w: Seq<char>|
            #[trigger] accepts_word(n2, w) == regex_matches(regex_tree(patterns[k].pattern@), w),
        before.spec_is_empty() ==> {
            &&& after.states@ == n2.states@
            &&& after.start_state == n2.start_state
            &&& after.end_state == n2.end_state
        },
        !before.spec_is_empty() ==> {
            &&& crate::nfa_language::alternation_of(before, n2, after)
            &&& after.states@[(before.states@.len() + n2.states@.len()) as int].accept_data is None
            &&& after.states@[(before.states@.len() + n2.states@.len() + 1) as int].accept_data is None
        },
    ensures
        patterns_language(after, patterns, k + 1),
        end_free(after),
{
    assert forall|w: Seq<char>, j: int| 0 <= j < k + 1 && well_formed_regex(regex_tree(patterns[j].pattern@))
        && pattern_kept(patterns, j, k + 1)
        implies (#[trigger] accepts_word_as(after, w, j) <==> regex_matches(regex_tree(patterns[j].pattern@), w)) by {
        if j < k {
            assert(!patterns_shape(patterns, j + 1).1);
            if patterns_shape(patterns, k).1 {
                lemma_shape_empty_prefix(patterns, k, j + 1);
            }
            assert(!before.spec_is_empty());
            assert(pattern_kept(patterns, j, k));
            assert forall|t: int| !#[trigger] labelled(before, t, k) by {
                if labelled(before, t, k) {
                    assert(before.states@[t].accept_data is Some);
                }
            }
            crate::nfa_language::lemma_alternation_labels(before, n2, after, k, j, w);
            assert(accepts_word_as(before, w, j) <==> regex_matches(regex_tree(patterns[j].pattern@), w));
        } else if before.spec_is_empty() {
            assert forall|i: int| 0 <= i < after.states@.len() && i != after.end_state implies (#[trigger] after.states@[i]).accept_data is None by {
                assert(after.states@[i] == n2.states@[i]);
            }
            assert(labelled(after, after.end_state as int, k));
            crate::nfa_language::lemma_single_label(after, k, j, w);
            if accepts_word(after, w) {
                crate::nfa_language::lemma_accepts_same_states(after, n2, w);
            }
            if accepts_word(n2, w) {
                crate::nfa_language::lemma_accepts_same_states(n2, after, w);
            }
        } else {
            assert forall|t: int| !#[trigger] labelled(before, t, k) by {
                if labelled(before, t, k) {
                    assert(before.states@[t].accept_data is Some);
                }
            }
            crate::nfa_language::lemma_alternation_labels(before, n2, after, k, j, w);
        }
    }
    if !before.spec_is_empty() {
        assert(end_free(after));
    } else {
        assert(after.states@[after.end_state as int] == n2.states@[n2.end_state as int]);
    }
}

impl Nfa {
    /// Builds the automaton of a pattern: its end state accepts the pattern,
    /// no other state accepts. Fails where the expression does not parse or
    /// uses an unsupported feature.
    pub fn build(pattern: &Pattern) -> (r: Result<Nfa, String>)
        ensures
            r matches Ok(n) ==> {
                &&& n.wf()
                &&& unconverted(n)
                &&& n.pattern@ == pattern.pattern@
                &&& n.states@[n.end_state as int].accept_data matches Some(p) && pattern_same(p, *pattern)
                &&& forall|i: int| 0 <= i < n.states@.len() && i != n.end_state ==> (#[trigger] n.states@[i]).accept_data is None
                &&& n.states@.len() == nfa_shape(regex_tree(pattern.pattern@)).0
                &&& n.spec_is_empty() == nfa_shape(regex_tree(pattern.pattern@)).1
                &&& end_free(n)
            },
            regex_syntax_error(pattern.pattern@) matches Some(m) ==> r matches Err(e) && e@ == m,
            r is Ok ==> regex_syntax_error(pattern.pattern@) is None,
            regex_syntax_error(pattern.pattern@) is None && !ast_supported(regex_tree(pattern.pattern@)) ==> r is Err,
            regex_syntax_error(pattern.pattern@) is None && ast_supported(regex_tree(pattern.pattern@))
                && ast_fits(regex_tree(pattern.pattern@)) ==> r is Ok,
            r is Ok && well_formed_regex(regex_tree(pattern.pattern@)) ==> forall|w: Seq<char>|
                #[trigger] accepts_word(r->Ok_0, w) == regex_matches(regex_tree(pattern.pattern@), w),
    {
        let ast = match parse_regex(pattern.pattern.as_str()) {
            Ok(a) => a,
            Err(e) => {
                return Err(e);
            },
        };
        Self::build_from_ast(pattern, &ast)
    }

    /// Builds the automaton of a pattern from its parsed expression: its end
    /// state accepts the pattern, no other state accepts, and for a
    /// well-formed expression it accepts exactly the expression's words. Fails
    /// for an unsupported feature, and else only where its automata would have
    /// too many states to count.
    pub fn build_from_ast(pattern: &Pattern, ast: &RegexAst) -> (r: Result<Nfa, String>)
        ensures
            r matches Ok(n) ==> {
                &&& n.wf()
                &&& unconverted(n)
                &&& n.pattern@ == pattern.pattern@
                &&& n.states@[n.end_state as int].accept_data matches Some(p) && pattern_same(p, *pattern)
                &&& forall|i: int| 0 <= i < n.states@.len() && i != n.end_state ==> (#[trigger] n.states@[i]).accept_data is None
                &&& n.states@.len() == nfa_shape(*ast).0
                &&& n.spec_is_empty() == nfa_shape(*ast).1
                &&& end_free(n)
            },
            !ast_supported(*ast) ==> r is Err,
            ast_supported(*ast) && ast_fits(*ast) ==> r is Ok,
            r is Ok && well_formed_regex(*ast) ==> forall|w: Seq<char>| #[trigger] accepts_word(r->Ok_0, w) == regex_matches(*ast, w),
    {
        let mut nfa = match Nfa::try_from_ast(ast) {
            Ok(n) => n,
            Err(e) => {
                return Err(e);
            },
        };
        let end = nfa.end_state;
        let ghost before = nfa;
        nfa.states[end].accept_data = Some(pattern.duplicate());
        nfa.pattern = pattern.pattern.clone();
        proof {
            assert forall|i: int| 0 <= i < nfa.states@.len() implies no_range((#[trigger] nfa.states@[i]).transitions@) by {
                assert(nfa.states@[i].transitions@ == before.states@[i].transitions@);
            }
            assert forall|i: int, k: int| 0 <= i < nfa.states@.len() && 0 <= k < nfa.states@[i].transitions@.len()
                implies (#[trigger] nfa.states@[i].transitions@[k]).target < nfa.states@.len() by {
            }
            assert forall|i: int| 0 <= i < before.states@.len() implies
                (#[trigger] nfa.states@[i]).transitions@ == before.states@[i].transitions@ by {
            }
            assert forall|i: int| 0 <= i < nfa.states@.len() implies
                (#[trigger] before.states@[i]).transitions@ == nfa.states@[i].transitions@ by {
            }
            if well_formed_regex(*ast) {
                assert forall|w: Seq<char>| #[trigger] accepts_word(nfa, w) == regex_matches(*ast, w) by {
                    if accepts_word(nfa, w) {
                        crate::nfa_language::lemma_accepts_same_transitions(nfa, before, w);
                    }
                    if regex_matches(*ast, w) {
                        crate::nfa_language::lemma_accepts_same_transitions(before, nfa, w);
                    }
                }
            }
        }
        Ok(nfa)
    }

    /// Builds one automaton of a list of patterns: the alternation of their
    /// automata, each pattern with its index as priority, so that earlier
    /// patterns are preferred.
    pub fn build_from_patterns(patterns: &Vec<Pattern>) -> (r: Result<Nfa, String>)
        ensures
            r matches Ok(n) ==> n.wf() && unconverted(n) && accepts_patterns(n, patterns@, patterns@.len() as int),
            r is Ok ==> forall|k: int| 0 <= k < patterns@.len() ==> regex_syntax_error(#[trigger] patterns@[k].pattern@) is None,
            (forall|k: int| 0 <= k < patterns@.len() ==> #[trigger] pattern_joins(patterns@, k)) ==> r is Ok,
            r matches Ok(n) ==> n.states@.len() == patterns_shape(patterns@, patterns@.len() as int).0,
            r matches Ok(n) ==> patterns_language(n, patterns@, patterns@.len() as int),
    {
        let ghost owed = forall|k: int| 0 <= k < patterns@.len() ==> #[trigger] pattern_joins(patterns@, k);
        let mut nfa = Nfa::new();
        let mut k: usize = 0;
        while k < patterns.len()
            invariant
                k <= patterns@.len(),
                owed == forall|k: int| 0 <= k < patterns@.len() ==> #[trigger] pattern_joins(patterns@, k),
                nfa.states@.len() == patterns_shape(patterns@, k as int).0,
                nfa.spec_is_empty() == patterns_shape(patterns@, k as int).1,
                forall|j: int| 0 <= j < k ==> regex_syntax_error(#[trigger] patterns@[j].pattern@) is None,
                nfa.wf(),
                unconverted(nfa),
                accepts_patterns(nfa, patterns@, k as int),
                patterns_language(nfa, patterns@, k as int),
                end_free(nfa),
            decreases patterns.len() - k,
        {
            let p = patterns[k].duplicate().with_priority(k);
            proof {
                if owed {
                    assert(pattern_joins(patterns@, k as int));
                }
            }
            assert(p.pattern@ == patterns@[k as int].pattern@);
            let nfa2 = match Nfa::build(&p) {
                Ok(n) => n,
                Err(e) => {
                    return Err(e);
                },
            };
            if nfa.states.len() >= usize::MAX - 2 || nfa2.states.len() > usize::MAX - 2 - nfa.states.len() {
                return Err(String::from_str("the automaton has too many states"));
            }
            let ghost before = nfa;
            let ghost n2 = nfa2;
            let l1 = nfa.states.len();
            nfa.alternation(nfa2);
            proof {
                self::lemma_alternation_accepts(before, n2, nfa, patterns@, k as int, p);
                lemma_alternation_unconverted(before, n2, nfa);
                lemma_patterns_language_step(before, n2, nfa, patterns@, k as int);
            }
            k = k + 1;
        }
        Ok(nfa)
    }
}

/// The accepting states after joining the automaton of pattern `k` as an
/// alternative.
proof fn lemma_alternation_accepts(before: Nfa, n2: Nfa, after: Nfa, patterns: Seq<Pattern>, k: int, p: Pattern)
    requires
        0 <= k < patterns.len(),
        before.wf(),
        n2.wf(),
        accepts_patterns(before, patterns, k),
        p.priority == k,
        pattern_same(p, prioritized(patterns[k], k as usize)),
        n2.states@[n2.end_state as int].accept_data matches Some(q) && pattern_same(q, p),
        forall|i: int| 0 <= i < n2.states@.len() && i != n2.end_state ==> (#[trigger] n2.states@[i]).accept_data is None,
        before.spec_is_empty() ==> after.states@ == n2.states@,
        !before.spec_is_empty() ==> {
            let l1 = before.states@.len();
            let l2 = n2.states@.len();
            &&& after.states@.len() == l1 + l2 + 2
            &&& forall|i: int| 0 <= i < l1 && i != before.end_state ==> #[trigger] after.states@[i] == before.states@[i]
            &&& extended_state(before.states@[before.end_state as int], after.states@[before.end_state as int],
                seq![epsilon((l1 + l2 + 1) as usize)])
            &&& forall|i: int| 0 <= i < l2 && i != n2.end_state ==>
                shifted_state(n2.states@[i], #[trigger] after.states@[l1 + i], l1 as int)
            &&& shifted_state_with(n2.states@[n2.end_state as int], after.states@[l1 + n2.end_state],
                l1 as int, seq![epsilon((l1 + l2 + 1) as usize)])
            &&& after.states@[(l1 + l2) as int].accept_data is None
            &&& after.states@[(l1 + l2 + 1) as int].accept_data is None
        },
    ensures
        accepts_patterns(after, patterns, k + 1),
{
    let e2 = n2.end_state as int;
    if before.spec_is_empty() {
        assert forall|i: int| 0 <= i < after.states@.len() && (#[trigger] after.states@[i]).accept_data is Some implies {
            let q = after.states@[i].accept_data->0;
            &&& 0 <= q.priority < k + 1
            &&& pattern_same(q, prioritized(patterns[q.priority as int], q.priority))
        } by {
            assert(i == e2);
        }
    } else {
        let l1 = before.states@.len() as int;
        let l2 = n2.states@.len() as int;
        assert forall|i: int| 0 <= i < after.states@.len() && (#[trigger] after.states@[i]).accept_data is Some implies {
            let q = after.states@[i].accept_data->0;
            &&& 0 <= q.priority < k + 1
            &&& pattern_same(q, prioritized(patterns[q.priority as int], q.priority))
        } by {
            if i < l1 {
                if i != before.end_state {
                    assert(after.states@[i] == before.states@[i]);
                }
                assert(before.states@[i].accept_data is Some);
            } else if i < l1 + l2 {
                if i - l1 != e2 {
                    assert(shifted_state(n2.states@[i - l1], after.states@[l1 + (i - l1)], l1));
                }
            }
        }
    }
}


/// A strictly increasing sequence of state ids.
pub open spec fn strictly_sorted(s: Seq<usize>) -> bool {
    forall|i: int, j: int| 0 <= i < j < s.len() ==> s[i] < s[j]
}

/// Whether the transition at `k` of state `i` is an epsilon transition.
pub open spec fn is_epsilon_at(nfa: Nfa, i: int, k: int) -> bool {
    &&& 0 <= i < nfa.states@.len()
    &&& 0 <= k < nfa.states@[i].transitions@.len()
    &&& nfa.states@[i].transitions@[k].character_class is None
}

/// A set of states that holds every target of an epsilon transition from its
/// states.
pub open spec fn eps_closed(nfa: Nfa, x: Set<usize>) -> bool {
    forall|i: usize, k: int| #![trigger x.contains(i), is_epsilon_at(nfa, i as int, k)]
        x.contains(i) && is_epsilon_at(nfa, i as int, k) ==> x.contains(nfa.states@[i as int].transitions@[k].target)
}

/// A set that holds all the given states.
pub open spec fn holds_all(x: Set<usize>, seeds: Seq<usize>) -> bool {
    forall|k: int| 0 <= k < seeds.len() ==> x.contains(#[trigger] seeds[k])
}

/// `r` is the epsilon closure of `seeds`: the least set of states that holds
/// the seeds and is closed under epsilon transitions, in increasing order.
pub open spec fn is_epsilon_closure(nfa: Nfa, seeds: Seq<usize>, r: Seq<usize>) -> bool {
    &&& strictly_sorted(r)
    &&& holds_all(r.to_set(), seeds)
    &&& eps_closed(nfa, r.to_set())
    &&& forall|x: Set<usize>| #![trigger eps_closed(nfa, x), holds_all(x, seeds)]
        eps_closed(nfa, x) && holds_all(x, seeds) ==> r.to_set().subset_of(x)
}

/// Inserts `x` into a strictly increasing vector, unless it is there already.
pub(crate) fn insert_sorted_id(v: &mut Vec<usize>, x: usize)
    requires
        strictly_sorted(old(v)@),
    ensures
        strictly_sorted(final(v)@),
        forall|y: usize| final(v)@.contains(y) <==> (old(v)@.contains(y) || y == x),
        !old(v)@.contains(x) ==> final(v)@.len() == old(v)@.len() + 1,
{
    let mut i: usize = 0;
    while i < v.len() && v[i] < x
        invariant
            i <= v@.len(),
            v@ == old(v)@,
            forall|k: int| 0 <= k < i ==> v@[k] < x,
        decreases v.len() - i,
    {
        i = i + 1;
    }
    if i < v.len() && v[i] == x {
        assert(v@[i as int] == x);
        assert(v@.contains(x));
        return;
    }
    let ghost before = v@;
    assert(i < before.len() ==> x < before[i as int]);
    v.insert(i, x);
    assert forall|y: usize| v@.contains(y) <==> (before.contains(y) || y == x) by {
        if v@.contains(y) {
            let k = choose|k: int| 0 <= k < v@.len() && v@[k] == y;
            if k < i {
                assert(before[k] == y);
            } else if k > i {
                assert(before[k - 1] == y);
            }
        }
        if before.contains(y) {
            let k = choose|k: int| 0 <= k < before.len() && before[k] == y;
            if k < i {
                assert(v@[k] == y);
            } else {
                assert(v@[k + 1] == y);
            }
        }
        if y == x {
            assert(v@[i as int] == y);
        }
    }
    assert(forall|y: usize| v@.contains(y) <==> (old(v)@.contains(y) || y == x));
}

/// A strictly increasing sequence of ids below `n` has at most `n` elements.
proof fn lemma_sorted_len_bound(s: Seq<usize>, n: int)
    requires
        strictly_sorted(s),
        0 <= n,
        forall|k: int| 0 <= k < s.len() ==> #[trigger] s[k] < n,
    ensures
        s.len() <= n,
{
    assert forall|k: int| 0 <= k < s.len() implies #[trigger] s[k] >= k by {
        lemma_sorted_at_least(s, k);
    }
    if s.len() > 0 {
        let last = s.len() - 1;
        assert(s[last] >= last);
        assert(s[last] < n);
    }
}

proof fn lemma_sorted_at_least(s: Seq<usize>, k: int)
    requires
        strictly_sorted(s),
        0 <= k < s.len(),
    ensures
        s[k] >= k,
    decreases k,
{
    if k > 0 {
        lemma_sorted_at_least(s, k - 1);
    }
}

/// Whether a strictly increasing vector holds `x`.
pub(crate) fn sorted_contains(v: &Vec<usize>, x: usize) -> (r: bool)
    ensures
        r == v@.contains(x),
{
    let mut i: usize = 0;
    while i < v.len()
        invariant
            i <= v@.len(),
            forall|k: int| 0 <= k < i ==> v@[k] != x,
        decreases v.len() - i,
    {
        if v[i] == x {
            assert(v@[i as int] == x);
            return true;
        }
        i = i + 1;
    }
    false
}

impl Nfa {
    /// The epsilon closure of a set of states: every state reachable from one
    /// of them by epsilon transitions, in increasing order.
    pub fn epsilon_closure_of(&self, seeds: &Vec<usize>) -> (r: Vec<usize>)
        requires
            self.wf(),
            forall|k: int| 0 <= k < seeds@.len() ==> #[trigger] seeds@[k] < self.states@.len(),
        ensures
            is_epsilon_closure(*self, seeds@, r@),
            forall|k: int| 0 <= k < r@.len() ==> #[trigger] r@[k] < self.states@.len(),
    {
        let mut sorted: Vec<usize> = Vec::new();
        let mut order: Vec<usize> = Vec::new();
        let mut s: usize = 0;
        while s < seeds.len()
            invariant
                s <= seeds@.len(),
                self.wf(),
                forall|k: int| 0 <= k < seeds@.len() ==> #[trigger] seeds@[k] < self.states@.len(),
                strictly_sorted(sorted@),
                forall|y: usize| sorted@.contains(y) <==> order@.contains(y),
                sorted@.len() == order@.len(),
                forall|k: int| 0 <= k < s ==> sorted@.contains(#[trigger] seeds@[k]),
                forall|y: usize| sorted@.contains(y) ==> exists|k: int| 0 <= k < seeds@.len() && seeds@[k] == y,
            decreases seeds.len() - s,
        {
            let x = seeds[s];
            if !sorted_contains(&sorted, x) {
                let ghost old_order = order@;
                let ghost old_sorted = sorted@;
                insert_sorted_id(&mut sorted, x);
                order.push(x);
                proof {
                    assert forall|y: usize| sorted@.contains(y) <==> order@.contains(y) by {
                        if order@.contains(y) {
                            let p = choose|p: int| 0 <= p < order@.len() && order@[p] == y;
                            if p < old_order.len() {
                                assert(old_order[p] == y);
                            }
                        }
                        if old_order.contains(y) {
                            let p = choose|p: int| 0 <= p < old_order.len() && old_order[p] == y;
                            assert(order@[p] == y);
                        }
                        if y == x {
                            assert(order@[order@.len() - 1] == x);
                        }
                    }
                    assert forall|y: usize| sorted@.contains(y) implies exists|k: int| 0 <= k < seeds@.len() && seeds@[k] == y by {
                        if y == x {
                            assert(seeds@[s as int] == y);
                        } else {
                            assert(old_sorted.contains(y));
                        }
                    }
                }
            }
            assert(sorted@.contains(seeds@[s as int]));
            s = s + 1;
        }
        let mut i: usize = 0;
        while i < order.len()
            invariant
                i <= order@.len(),
                self.wf(),
                strictly_sorted(sorted@),
                forall|y: usize| sorted@.contains(y) <==> order@.contains(y),
                sorted@.len() == order@.len(),
                forall|y: usize| sorted@.contains(y) ==> y < self.states@.len(),
                holds_all(sorted@.to_set(), seeds@),
                forall|x: Set<usize>| #![trigger eps_closed(*self, x), holds_all(x, seeds@)]
                    eps_closed(*self, x) && holds_all(x, seeds@) ==> sorted@.to_set().subset_of(x),
                forall|p: int, k: int| 0 <= p < i && #[trigger] is_epsilon_at(*self, order@[p] as int, k)
                    ==> sorted@.contains(self.states@[order@[p] as int].transitions@[k].target),
            decreases self.states@.len() - i,
        {
            let current = order[i];
            assert(order@[i as int] == current);
            assert(order@.contains(current));
            let ghost pre_sorted = sorted@;
            let ghost pre_order = order@;
            let mut k: usize = 0;
            while k < self.states[current].transitions.len()
                invariant
                    k <= self.states@[current as int].transitions@.len(),
                    current < self.states@.len(),
                    self.wf(),
                    strictly_sorted(sorted@),
                    forall|y: usize| sorted@.contains(y) <==> order@.contains(y),
                    sorted@.len() == order@.len(),
                    forall|y: usize| sorted@.contains(y) ==> y < self.states@.len(),
                    forall|y: usize| pre_sorted.contains(y) ==> sorted@.contains(y),
                    i < pre_order.len(),
                    pre_order.len() <= order@.len(),
                    forall|p: int| 0 <= p < pre_order.len() ==> #[trigger] order@[p] == pre_order[p],
                    current == pre_order[i as int],
                    sorted@.contains(current),
                    holds_all(sorted@.to_set(), seeds@),
                    forall|x: Set<usize>| #![trigger eps_closed(*self, x), holds_all(x, seeds@)]
                        eps_closed(*self, x) && holds_all(x, seeds@) ==> sorted@.to_set().subset_of(x),
                    forall|u: int| 0 <= u < k && #[trigger] is_epsilon_at(*self, current as int, u)
                        ==> sorted@.contains(self.states@[current as int].transitions@[u].target),
                decreases self.states@[current as int].transitions@.len() - k,
            {
                let t = &self.states[current].transitions[k];
                if t.character_class.is_none() {
                    let target = t.target;
                    if !sorted_contains(&sorted, target) {
                        let ghost before = sorted@;
                        let ghost old_order = order@;
                        insert_sorted_id(&mut sorted, target);
                        order.push(target);
                        proof {
                            assert(order@[order@.len() - 1] == target);
                            assert forall|y: usize| sorted@.contains(y) <==> order@.contains(y) by {
                                if order@.contains(y) {
                                    let p = choose|p: int| 0 <= p < order@.len() && order@[p] == y;
                                    if p < old_order.len() {
                                        assert(old_order[p] == y);
                                    }
                                }
                                if old_order.contains(y) {
                                    let p = choose|p: int| 0 <= p < old_order.len() && old_order[p] == y;
                                    assert(order@[p] == y);
                                }
                            }
                            assert(target < self.states@.len());
                            assert forall|x: Set<usize>| #![trigger eps_closed(*self, x), holds_all(x, seeds@)]
                                eps_closed(*self, x) && holds_all(x, seeds@) implies sorted@.to_set().subset_of(x) by {
                                assert(before.to_set().subset_of(x));
                                assert(x.contains(current));
                                assert(is_epsilon_at(*self, current as int, k as int));
                                assert(x.contains(target));
                                assert forall|y: usize| sorted@.to_set().contains(y) implies x.contains(y) by {
                                    if y != target {
                                        assert(before.to_set().contains(y));
                                    }
                                }
                            }
                            assert forall|kk: int| 0 <= kk < seeds@.len() implies sorted@.to_set().contains(#[trigger] seeds@[kk]) by {
                                assert(before.to_set().contains(seeds@[kk]));
                            }
                        }
                    }
                }
                k = k + 1;
            }
            proof {
                assert forall|y: usize| sorted@.contains(y) implies #[trigger] order@.contains(y) by {}
                assert forall|kk: int| 0 <= kk < sorted@.len() implies #[trigger] sorted@[kk] < self.states@.len() by {
                    assert(sorted@.contains(sorted@[kk]));
                }
                lemma_sorted_len_bound(sorted@, self.states@.len() as int);
                assert forall|p: int, kk: int| 0 <= p < i + 1 && #[trigger] is_epsilon_at(*self, order@[p] as int, kk)
                    implies sorted@.contains(self.states@[order@[p] as int].transitions@[kk].target) by {
                    if p < i {
                        assert(order@[p] == pre_order[p]);
                        assert(is_epsilon_at(*self, pre_order[p] as int, kk));
                        assert(pre_sorted.contains(self.states@[order@[p] as int].transitions@[kk].target));
                    }
                }
            }
            i = i + 1;
        }
        proof {
            assert forall|y: usize, kk: int| #![trigger sorted@.to_set().contains(y), is_epsilon_at(*self, y as int, kk)]
                sorted@.to_set().contains(y) && is_epsilon_at(*self, y as int, kk)
                implies sorted@.to_set().contains(self.states@[y as int].transitions@[kk].target) by {
                assert(order@.contains(y));
                let p = choose|p: int| 0 <= p < order@.len() && order@[p] == y;
                assert(is_epsilon_at(*self, order@[p] as int, kk));
            }
            assert forall|kk: int| 0 <= kk < sorted@.len() implies #[trigger] sorted@[kk] < self.states@.len() by {
                assert(sorted@.contains(sorted@[kk]));
            }
        }
        sorted
    }
}


/// Whether transition `k` of state `i` has a class of the expression.
pub open spec fn has_kind_at(nfa: Nfa, i: int, k: int) -> bool {
    &&& 0 <= i < nfa.states@.len()
    &&& 0 <= k < nfa.states@[i].transitions@.len()
    &&& nfa.states@[i].transitions@[k].character_class matches Some(CharacterClassType::Kind(_))
}

/// No transition has a disjoint character class yet.
pub open spec fn unconverted(nfa: Nfa) -> bool {
    forall|i: int| 0 <= i < nfa.states@.len() ==> no_range((#[trigger] nfa.states@[i]).transitions@)
}

/// No transition is on a disjoint character class.
pub open spec fn no_range(ts: Seq<NfaTransition>) -> bool {
    forall|k: int| 0 <= k < ts.len() ==> !((#[trigger] ts[k]).character_class matches Some(CharacterClassType::Range(_, _)))
}

/// Moving targets and adding epsilon transitions adds no transition on a
/// disjoint character class.
pub proof fn lemma_no_range_parts(ts: Seq<NfaTransition>, off: int, extra: Seq<NfaTransition>)
    requires
        no_range(ts),
        forall|k: int| 0 <= k < extra.len() ==> (#[trigger] extra[k]).character_class is None,
    ensures
        no_range(ts.map_values(|tr: NfaTransition| shift_transition(tr, off)) + extra),
        no_range(ts + extra),
{
    let a = ts.map_values(|tr: NfaTransition| shift_transition(tr, off)) + extra;
    assert forall|k: int| 0 <= k < a.len() implies !((#[trigger] a[k]).character_class matches Some(CharacterClassType::Range(_, _))) by {
        if k < ts.len() {
            assert(a[k] == shift_transition(ts[k], off));
        } else {
            assert(a[k] == extra[k - ts.len()]);
        }
    }
    let b = ts + extra;
    assert forall|k: int| 0 <= k < b.len() implies !((#[trigger] b[k]).character_class matches Some(CharacterClassType::Range(_, _))) by {
        if k < ts.len() {
            assert(b[k] == ts[k]);
        } else {
            assert(b[k] == extra[k - ts.len()]);
        }
    }
}

/// No transition has a class of the expression any more.
pub open spec fn converted(nfa: Nfa) -> bool {
    forall|i: int, k: int| 0 <= i < nfa.states@.len() && 0 <= k < nfa.states@[i].transitions@.len()
        ==> !(#[trigger] nfa.states@[i].transitions@[k].character_class matches Some(CharacterClassType::Kind(_)))
}

/// Whether the character classes hold a class with the characters `k`.
pub open spec fn has_class(cc: CharacterClasses, k: CharacterClassKind) -> bool {
    exists|c: int| 0 <= c < cc.classes@.len() && crate::character_classes::kind_eq(#[trigger] cc.classes@[c].characters, k)
}

impl Nfa {
    /// The epsilon closure of one state.
    pub fn epsilon_closure(&self, state: usize) -> (r: Vec<usize>)
        requires
            self.wf(),
            state < self.states@.len(),
        ensures
            is_epsilon_closure(*self, seq![state], r@),
            forall|k: int| 0 <= k < r@.len() ==> #[trigger] r@[k] < self.states@.len(),
    {
        let mut seeds: Vec<usize> = Vec::new();
        seeds.push(state);
        assert(seeds@ =~= seq![state]);
        self.epsilon_closure_of(&seeds)
    }

    /// Adds the classes of all transitions to `character_classes`.
    pub fn collect_character_classes(&self, character_classes: &mut CharacterClasses)
        requires
            unconverted(*self),
        ensures
            final(character_classes).elementary_intervals@ == old(character_classes).elementary_intervals@,
            final(character_classes).intervals@ == old(character_classes).intervals@,
            final(character_classes).classes@.len() >= old(character_classes).classes@.len(),
            forall|c: int| 0 <= c < old(character_classes).classes@.len() ==>
                #[trigger] final(character_classes).classes@[c] == old(character_classes).classes@[c],
            forall|i: int, k: int| #[trigger] has_kind_at(*self, i, k) ==> has_class(*final(character_classes),
                self.states@[i].transitions@[k].character_class->0->Kind_0),
            fresh_classes(*old(character_classes)) ==> fresh_classes(*final(character_classes)),
    {
        let mut i: usize = 0;
        while i < self.states.len()
            invariant
                i <= self.states@.len(),
                character_classes.elementary_intervals@ == old(character_classes).elementary_intervals@,
                character_classes.intervals@ == old(character_classes).intervals@,
                character_classes.classes@.len() >= old(character_classes).classes@.len(),
                forall|c: int| 0 <= c < old(character_classes).classes@.len() ==>
                    #[trigger] character_classes.classes@[c] == old(character_classes).classes@[c],
                forall|u: int, k: int| 0 <= u < i && #[trigger] has_kind_at(*self, u, k) ==> has_class(*character_classes,
                    self.states@[u].transitions@[k].character_class->0->Kind_0),
                fresh_classes(*old(character_classes)) ==> fresh_classes(*character_classes),
            decreases self.states.len() - i,
        {
            let mut k: usize = 0;
            while k < self.states[i].transitions.len()
                invariant
                    i < self.states@.len(),
                    k <= self.states@[i as int].transitions@.len(),
                    character_classes.elementary_intervals@ == old(character_classes).elementary_intervals@,
                    character_classes.intervals@ == old(character_classes).intervals@,
                    character_classes.classes@.len() >= old(character_classes).classes@.len(),
                    forall|c: int| 0 <= c < old(character_classes).classes@.len() ==>
                        #[trigger] character_classes.classes@[c] == old(character_classes).classes@[c],
                    forall|u: int, kk: int| 0 <= u < i && #[trigger] has_kind_at(*self, u, kk) ==> has_class(*character_classes,
                        self.states@[u].transitions@[kk].character_class->0->Kind_0),
                    forall|kk: int| 0 <= kk < k && #[trigger] has_kind_at(*self, i as int, kk) ==> has_class(*character_classes,
                        self.states@[i as int].transitions@[kk].character_class->0->Kind_0),
                    fresh_classes(*old(character_classes)) ==> fresh_classes(*character_classes),
                decreases self.states@[i as int].transitions@.len() - k,
            {
                let ghost before = *character_classes;
                match &self.states[i].transitions[k].character_class {
                    Some(CharacterClassType::Kind(kind)) => {
                        character_classes.add_hir(kind.duplicate());
                        proof {
                            self.lemma_add_keeps_classes(before, *character_classes, *kind);
                            if fresh_classes(before) {
                                let cc = *character_classes;
                                assert forall|c: int| 0 <= c < cc.classes@.len() implies
                                    (#[trigger] cc.classes@[c]).intervals@.len() == 0 by {
                                    if c < before.classes@.len() {
                                        assert(cc.classes@[c] == before.classes@[c]);
                                    } else {
                                        assert(cc.classes@[c] == cc.classes@.last());
                                    }
                                }
                            }
                        }
                    },
                    _ => {},
                }
                k = k + 1;
            }
            i = i + 1;
        }
    }

    /// Adding a class keeps the classes that were there, and holds the class
    /// added.
    proof fn lemma_add_keeps_classes(&self, before: CharacterClasses, after: CharacterClasses, kind: CharacterClassKind)
        requires
            (exists|i: int| 0 <= i < before.classes@.len()
                && crate::character_classes::kind_eq(#[trigger] before.classes@[i].characters, kind))
                ==> after.classes@ == before.classes@,
            !(exists|i: int| 0 <= i < before.classes@.len()
                && crate::character_classes::kind_eq(#[trigger] before.classes@[i].characters, kind))
                ==> after.classes@.len() == before.classes@.len() + 1
                && after.classes@.drop_last() == before.classes@
                && crate::character_classes::kind_eq(after.classes@.last().characters, kind),
        ensures
            after.classes@.len() >= before.classes@.len(),
            forall|c: int| 0 <= c < before.classes@.len() ==> #[trigger] after.classes@[c] == before.classes@[c],
            forall|k: CharacterClassKind| has_class(before, k) ==> has_class(after, k),
            has_class(after, kind),
    {
        if !(exists|i: int| 0 <= i < before.classes@.len()
            && crate::character_classes::kind_eq(#[trigger] before.classes@[i].characters, kind)) {
            assert forall|c: int| 0 <= c < before.classes@.len() implies #[trigger] after.classes@[c] == before.classes@[c] by {
                assert(after.classes@.drop_last()[c] == after.classes@[c]);
            }
            assert forall|k: CharacterClassKind| has_class(before, k) implies has_class(after, k) by {
                let c = choose|c: int| 0 <= c < before.classes@.len()
                    && crate::character_classes::kind_eq(#[trigger] before.classes@[c].characters, k);
                assert(after.classes@[c] == before.classes@[c]);
            }
            assert(crate::character_classes::kind_eq(after.classes@[after.classes@.len() - 1].characters, kind));
        }
    }
}


/// The groups of the class of a transition; empty for other transitions.
pub open spec fn groups_of_transition(cc: CharacterClasses, t: NfaTransition) -> Seq<usize> {
    match t.character_class {
        Some(CharacterClassType::Kind(kind)) => cc.disjoint_classes_of(kind),
        _ => Seq::empty(),
    }
}

/// The group of a transition on a disjoint character class.
pub open spec fn transition_group(t: NfaTransition) -> Option<usize> {
    match t.character_class {
        Some(CharacterClassType::Range(_, g)) => Some(g),
        _ => None,
    }
}

/// Whether `t` is the image of one of the transitions `old_ts` under the split
/// into disjoint character classes: an epsilon transition of the same target,
/// or a transition on a group of the class of a transition of the same target.
pub open spec fn image_of(cc: CharacterClasses, old_ts: Seq<NfaTransition>, t: NfaTransition) -> bool {
    match t.character_class {
        None => has_epsilon_to(old_ts, t.target),
        Some(CharacterClassType::Range(rs, g)) => {
            &&& g < cc.intervals@.len()
            &&& rs@ == cc.intervals@[g as int]@
            &&& exists|k: int| 0 <= k < old_ts.len() && groups_of_transition(cc, #[trigger] old_ts[k]).contains(g)
                && old_ts[k].target == t.target
        },
        Some(CharacterClassType::Kind(_)) => false,
    }
}

/// Whether `ts` holds an epsilon transition to `target`.
pub open spec fn has_epsilon_to(ts: Seq<NfaTransition>, target: usize) -> bool {
    exists|k: int| 0 <= k < ts.len() && (#[trigger] ts[k]).character_class is None && ts[k].target == target
}

/// Whether `ts` holds a transition on group `g` to `target`.
pub open spec fn has_group_to(ts: Seq<NfaTransition>, g: usize, target: usize) -> bool {
    exists|k: int| 0 <= k < ts.len() && transition_group(#[trigger] ts[k]) == Some(g) && ts[k].target == target
}

/// The transitions `new_ts` are those of `old_ts` split into disjoint
/// character classes.
pub open spec fn split_transitions(cc: CharacterClasses, old_ts: Seq<NfaTransition>, new_ts: Seq<NfaTransition>) -> bool {
    &&& forall|k: int| 0 <= k < new_ts.len() ==> image_of(cc, old_ts, #[trigger] new_ts[k])
    &&& forall|k: int| 0 <= k < old_ts.len() && (#[trigger] old_ts[k]).character_class is None
        ==> has_epsilon_to(new_ts, old_ts[k].target)
    &&& forall|k: int, j: int| 0 <= k < old_ts.len() && 0 <= j < groups_of_transition(cc, #[trigger] old_ts[k]).len()
        ==> has_group_to(new_ts, #[trigger] groups_of_transition(cc, old_ts[k])[j], old_ts[k].target)
}

/// The transitions `piece` are the image of the single transition `t`.
pub open spec fn split_one_ok(cc: CharacterClasses, t: NfaTransition, piece: Seq<NfaTransition>) -> bool {
    &&& t.character_class is None ==> piece == seq![NfaTransition { character_class: None, target: t.target }]
    &&& t.character_class is Some ==> {
        &&& piece.len() == groups_of_transition(cc, t).len()
        &&& forall|j: int| 0 <= j < piece.len() ==> {
            &&& transition_group(#[trigger] piece[j]) == Some(groups_of_transition(cc, t)[j])
            &&& piece[j].target == t.target
            &&& piece[j].character_class matches Some(CharacterClassType::Range(rs, g))
                && g < cc.intervals@.len() && rs@ == cc.intervals@[g as int]@
        }
    }
}

/// The groups of a class are groups of the character classes.
proof fn lemma_groups_valid(cc: CharacterClasses, kind: CharacterClassKind)
    requires
        cc.class_indices_valid(),
    ensures
        forall|u: int| 0 <= u < cc.disjoint_classes_of(kind).len() ==> #[trigger] cc.disjoint_classes_of(kind)[u] < cc.intervals@.len(),
{
    if exists|c: int| 0 <= c < cc.classes@.len() && crate::character_classes::kind_eq(#[trigger] cc.classes@[c].characters, kind) {
        let c0 = choose|c: int| 0 <= c < cc.classes@.len() && crate::character_classes::kind_eq(#[trigger] cc.classes@[c].characters, kind);
        crate::character_classes::lemma_first_class_exists(cc, kind, c0);
        let c = cc.first_class_of(kind);
        assert forall|u: int| 0 <= u < cc.disjoint_classes_of(kind).len() implies #[trigger] cc.disjoint_classes_of(kind)[u] < cc.intervals@.len() by {
            assert(cc.disjoint_classes_of(kind)[u] == cc.classes@[c].intervals@[u]);
        }
    }
}

/// The split of the first `k` transitions, followed by that of transition
/// `k`, is the split of the first `k + 1`.
proof fn lemma_split_step(cc: CharacterClasses, old_ts: Seq<NfaTransition>, k: int, out0: Seq<NfaTransition>, piece: Seq<NfaTransition>)
    requires
        0 <= k < old_ts.len(),
        !(old_ts[k].character_class matches Some(CharacterClassType::Range(_, _))),
        split_one_ok(cc, old_ts[k], piece),
        forall|u: int| 0 <= u < out0.len() ==> image_of(cc, old_ts, #[trigger] out0[u]),
        forall|u: int| 0 <= u < k && (#[trigger] old_ts[u]).character_class is None ==> has_epsilon_to(out0, old_ts[u].target),
        forall|u: int, j: int| 0 <= u < k && 0 <= j < groups_of_transition(cc, #[trigger] old_ts[u]).len()
            ==> has_group_to(out0, #[trigger] groups_of_transition(cc, old_ts[u])[j], old_ts[u].target),
    ensures
        forall|u: int| 0 <= u < (out0 + piece).len() ==> image_of(cc, old_ts, #[trigger] (out0 + piece)[u]),
        forall|u: int| 0 <= u < k + 1 && (#[trigger] old_ts[u]).character_class is None
            ==> has_epsilon_to(out0 + piece, old_ts[u].target),
        forall|u: int, j: int| 0 <= u < k + 1 && 0 <= j < groups_of_transition(cc, #[trigger] old_ts[u]).len()
            ==> has_group_to(out0 + piece, #[trigger] groups_of_transition(cc, old_ts[u])[j], old_ts[u].target),
{
    let out = out0 + piece;
    let t = old_ts[k];
    assert forall|u: int| 0 <= u < out.len() implies image_of(cc, old_ts, #[trigger] out[u]) by {
        if u < out0.len() {
            assert(out[u] == out0[u]);
        } else {
            let j = u - out0.len();
            assert(out[u] == piece[j]);
            if t.character_class is None {
                assert(piece[j] == NfaTransition { character_class: None, target: t.target });
                assert(has_epsilon_to(old_ts, t.target));
            } else {
                assert(groups_of_transition(cc, old_ts[k]).contains(groups_of_transition(cc, t)[j]));
            }
        }
    }
    assert forall|u: int| 0 <= u < k + 1 && (#[trigger] old_ts[u]).character_class is None
        implies has_epsilon_to(out, old_ts[u].target) by {
        if u < k {
            let w = choose|w: int| 0 <= w < out0.len() && (#[trigger] out0[w]).character_class is None
                && out0[w].target == old_ts[u].target;
            assert(out[w] == out0[w]);
        } else {
            assert(out[out0.len() as int] == piece[0]);
        }
    }
    assert forall|u: int, j: int| 0 <= u < k + 1 && 0 <= j < groups_of_transition(cc, #[trigger] old_ts[u]).len()
        implies has_group_to(out, #[trigger] groups_of_transition(cc, old_ts[u])[j], old_ts[u].target) by {
        if u < k {
            let g = groups_of_transition(cc, old_ts[u])[j];
            let w = choose|w: int| 0 <= w < out0.len() && transition_group(#[trigger] out0[w]) == Some(g)
                && out0[w].target == old_ts[u].target;
            assert(out[w] == out0[w]);
        } else {
            assert(t.character_class is Some);
            assert(out[out0.len() + j] == piece[j]);
        }
    }
}

impl Nfa {
    /// The image of one transition under the split into disjoint classes.
    fn split_one(t: &NfaTransition, character_classes: &CharacterClasses) -> (r: Vec<NfaTransition>)
        requires
            character_classes.class_indices_valid(),
            !(t.character_class matches Some(CharacterClassType::Range(_, _))),
        ensures
            split_one_ok(*character_classes, *t, r@),
    {
        let mut out: Vec<NfaTransition> = Vec::new();
        match &t.character_class {
            None => {
                out.push(NfaTransition { character_class: None, target: t.target });
                assert(out@ =~= seq![NfaTransition { character_class: None, target: t.target }]);
            },
            Some(CharacterClassType::Kind(kind)) => {
                let groups = character_classes.get_disjoint_classes(kind);
                proof {
                    lemma_groups_valid(*character_classes, *kind);
                }
                let mut j: usize = 0;
                while j < groups.len()
                    invariant
                        j <= groups@.len(),
                        groups@ == groups_of_transition(*character_classes, *t),
                        forall|u: int| 0 <= u < groups@.len() ==> #[trigger] groups@[u] < character_classes.intervals@.len(),
                        out@.len() == j,
                        forall|u: int| 0 <= u < j ==> {
                            &&& transition_group(#[trigger] out@[u]) == Some(groups@[u])
                            &&& out@[u].target == t.target
                            &&& out@[u].character_class matches Some(CharacterClassType::Range(rs, g))
                                && g < character_classes.intervals@.len() && rs@ == character_classes.intervals@[g as int]@
                        },
                    decreases groups.len() - j,
                {
                    let g = groups[j];
                    let src = &character_classes.intervals[g];
                    let mut rs: Vec<(char, char)> = Vec::new();
                    let mut q: usize = 0;
                    while q < src.len()
                        invariant
                            q <= src@.len(),
                            rs@ == src@.take(q as int),
                        decreases src.len() - q,
                    {
                        rs.push(src[q]);
                        q = q + 1;
                    }
                    assert(rs@ =~= src@);
                    out.push(NfaTransition { character_class: Some(CharacterClassType::Range(rs, g)), target: t.target });
                    j = j + 1;
                }
            },
            Some(CharacterClassType::Range(_, _)) => {
                assert(false);
            },
        }
        out
    }

    /// The transitions of a state split into disjoint character classes.
    fn split_state_transitions(old_ts: &Vec<NfaTransition>, character_classes: &CharacterClasses) -> (r: Vec<NfaTransition>)
        requires
            character_classes.class_indices_valid(),
            forall|k: int| 0 <= k < old_ts@.len() ==>
                !((#[trigger] old_ts@[k]).character_class matches Some(CharacterClassType::Range(_, _))),
        ensures
            split_transitions(*character_classes, old_ts@, r@),
    {
        let mut out: Vec<NfaTransition> = Vec::new();
        let mut k: usize = 0;
        while k < old_ts.len()
            invariant
                k <= old_ts@.len(),
                character_classes.class_indices_valid(),
                forall|u: int| 0 <= u < old_ts@.len() ==>
                    !((#[trigger] old_ts@[u]).character_class matches Some(CharacterClassType::Range(_, _))),
                forall|u: int| 0 <= u < out@.len() ==> image_of(*character_classes, old_ts@, #[trigger] out@[u]),
                forall|u: int| 0 <= u < k && (#[trigger] old_ts@[u]).character_class is None
                    ==> has_epsilon_to(out@, old_ts@[u].target),
                forall|u: int, j: int| 0 <= u < k && 0 <= j < groups_of_transition(*character_classes, #[trigger] old_ts@[u]).len()
                    ==> has_group_to(out@, #[trigger] groups_of_transition(*character_classes, old_ts@[u])[j], old_ts@[u].target),
            decreases old_ts.len() - k,
        {
            let mut piece = Self::split_one(&old_ts[k], character_classes);
            let ghost out0 = out@;
            let ghost p = piece@;
            out.append(&mut piece);
            proof {
                lemma_split_step(*character_classes, old_ts@, k as int, out0, p);
            }
            k = k + 1;
        }
        out
    }
}


impl Nfa {
    /// Replaces the class of every transition by transitions on the disjoint
    /// character classes (groups) that make it up, to the same target.
    pub fn convert_to_disjoint_character_classes(&mut self, character_classes: &CharacterClasses)
        requires
            old(self).wf(),
            unconverted(*old(self)),
            character_classes.class_indices_valid(),
        ensures
            final(self).wf(),
            converted(*final(self)),
            final(self).states@.len() == old(self).states@.len(),
            final(self).start_state == old(self).start_state,
            final(self).end_state == old(self).end_state,
            final(self).pattern == old(self).pattern,
            forall|i: int| 0 <= i < final(self).states@.len() ==> {
                &&& (#[trigger] final(self).states@[i]).id == old(self).states@[i].id
                &&& final(self).states@[i].accept_data == old(self).states@[i].accept_data
                &&& split_transitions(*character_classes, old(self).states@[i].transitions@, final(self).states@[i].transitions@)
            },
    {
        let mut i: usize = 0;
        while i < self.states.len()
            invariant
                i <= self.states@.len(),
                self.states@.len() == old(self).states@.len(),
                self.start_state == old(self).start_state,
                self.end_state == old(self).end_state,
                self.pattern == old(self).pattern,
                old(self).wf(),
                unconverted(*old(self)),
                character_classes.class_indices_valid(),
                forall|u: int| i <= u < self.states@.len() ==> #[trigger] self.states@[u] == old(self).states@[u],
                forall|u: int| 0 <= u < i ==> {
                    &&& (#[trigger] self.states@[u]).id == old(self).states@[u].id
                    &&& self.states@[u].accept_data == old(self).states@[u].accept_data
                    &&& split_transitions(*character_classes, old(self).states@[u].transitions@, self.states@[u].transitions@)
                },
            decreases self.states.len() - i,
        {
            proof {
                assert forall|k: int| 0 <= k < self.states@[i as int].transitions@.len() implies
                    !((#[trigger] self.states@[i as int].transitions@[k]).character_class matches Some(CharacterClassType::Range(_, _))) by {
                    assert(self.states@[i as int] == old(self).states@[i as int]);
                }
            }
            let new_ts = Self::split_state_transitions(&self.states[i].transitions, character_classes);
            self.states[i].transitions = new_ts;
            i = i + 1;
        }
        proof {
            assert forall|u: int, k: int| 0 <= u < self.states@.len() && 0 <= k < self.states@[u].transitions@.len()
                implies !(#[trigger] self.states@[u].transitions@[k].character_class matches Some(CharacterClassType::Kind(_))) by {
                assert(image_of(*character_classes, old(self).states@[u].transitions@, self.states@[u].transitions@[k]));
            }
            assert forall|u: int, k: int| 0 <= u < self.states@.len() && 0 <= k < self.states@[u].transitions@.len()
                implies (#[trigger] self.states@[u].transitions@[k]).target < self.states@.len() by {
                let t = self.states@[u].transitions@[k];
                let ots = old(self).states@[u].transitions@;
                assert(image_of(*character_classes, ots, t));
                if t.character_class is None {
                    let w = choose|w: int| 0 <= w < ots.len() && (#[trigger] ots[w]).character_class is None && ots[w].target == t.target;
                    assert(ots[w].target < old(self).states@.len());
                } else {
                    let g = transition_group(t)->0;
                    let w = choose|w: int| 0 <= w < ots.len() && groups_of_transition(*character_classes, #[trigger] ots[w]).contains(g)
                        && ots[w].target == t.target;
                    assert(ots[w].target < old(self).states@.len());
                }
            }
        }
    }
}


/// `r` is the epsilon closure of the set `x`: the least set of states that
/// holds `x` and is closed under epsilon transitions, in increasing order.
pub open spec fn is_closure_of(nfa: Nfa, x: Set<usize>, r: Seq<usize>) -> bool {
    &&& strictly_sorted(r)
    &&& x.subset_of(r.to_set())
    &&& eps_closed(nfa, r.to_set())
    &&& forall|y: Set<usize>| #![trigger eps_closed(nfa, y), x.subset_of(y)]
        eps_closed(nfa, y) && x.subset_of(y) ==> r.to_set().subset_of(y)
}

/// The closure of a sequence of seeds is the closure of the set of seeds.
pub proof fn lemma_closure_of_seeds(nfa: Nfa, seeds: Seq<usize>, r: Seq<usize>)
    requires
        is_epsilon_closure(nfa, seeds, r),
    ensures
        is_closure_of(nfa, seeds.to_set(), r),
{
    assert forall|y: Set<usize>| #![trigger eps_closed(nfa, y), seeds.to_set().subset_of(y)]
        eps_closed(nfa, y) && seeds.to_set().subset_of(y) implies r.to_set().subset_of(y) by {
        assert forall|k: int| 0 <= k < seeds.len() implies y.contains(#[trigger] seeds[k]) by {
            assert(seeds.to_set().contains(seeds[k]));
        }
        assert(holds_all(y, seeds));
    }
    assert forall|v: usize| seeds.to_set().contains(v) implies r.to_set().contains(v) by {
        let k = choose|k: int| 0 <= k < seeds.len() && seeds[k] == v;
        assert(holds_all(r.to_set(), seeds));
    }
}

/// Whether some state of `from` has a transition on group `g` to `t`.
pub open spec fn moves(nfa: Nfa, from: Seq<usize>, g: usize, t: usize) -> bool {
    exists|p: int| 0 <= p < from.len() && #[trigger] has_group_to(nfa.states@[from[p] as int].transitions@, g, t)
}

/// The order of (group, target) pairs: by target, then by group.
pub open spec fn pair_lt(a: (usize, usize), b: (usize, usize)) -> bool {
    a.1 < b.1 || (a.1 == b.1 && a.0 < b.0)
}

/// Pairs in strictly increasing order.
pub open spec fn pairs_sorted(s: Seq<(usize, usize)>) -> bool {
    forall|i: int, j: int| 0 <= i < j < s.len() ==> pair_lt(#[trigger] s[i], #[trigger] s[j])
}

/// Inserts a pair into a strictly increasing vector of pairs, unless it is
/// there already.
fn insert_sorted_pair(v: &mut Vec<(usize, usize)>, x: (usize, usize))
    requires
        pairs_sorted(old(v)@),
    ensures
        pairs_sorted(final(v)@),
        forall|y: (usize, usize)| final(v)@.contains(y) <==> (old(v)@.contains(y) || y == x),
{
    let mut i: usize = 0;
    while i < v.len() && (v[i].1 < x.1 || (v[i].1 == x.1 && v[i].0 < x.0))
        invariant
            i <= v@.len(),
            v@ == old(v)@,
            forall|k: int| 0 <= k < i ==> pair_lt(#[trigger] v@[k], x),
        decreases v.len() - i,
    {
        i = i + 1;
    }
    if i < v.len() && v[i].0 == x.0 && v[i].1 == x.1 {
        assert(v@[i as int] == x);
        assert(v@.contains(x));
        return;
    }
    let ghost before = v@;
    assert(i < before.len() ==> pair_lt(x, before[i as int]));
    v.insert(i, x);
    assert forall|a: int, b: int| 0 <= a < b < v@.len() implies pair_lt(#[trigger] v@[a], #[trigger] v@[b]) by {
        if b < i {
            assert(v@[a] == before[a] && v@[b] == before[b]);
        } else if b == i {
            assert(v@[a] == before[a]);
        } else if a == i {
            assert(v@[b] == before[b - 1]);
            if b - 1 > i {
                assert(pair_lt(before[i as int], before[b - 1]));
            }
        } else if a < i {
            assert(v@[a] == before[a] && v@[b] == before[b - 1]);
        } else {
            assert(v@[a] == before[a - 1] && v@[b] == before[b - 1]);
        }
    }
    assert forall|y: (usize, usize)| v@.contains(y) <==> (before.contains(y) || y == x) by {
        if v@.contains(y) {
            let k = choose|k: int| 0 <= k < v@.len() && v@[k] == y;
            if k < i {
                assert(before[k] == y);
            } else if k > i {
                assert(before[k - 1] == y);
            }
        }
        if before.contains(y) {
            let k = choose|k: int| 0 <= k < before.len() && before[k] == y;
            if k < i {
                assert(v@[k] == y);
            } else {
                assert(v@[k + 1] == y);
            }
        }
        if y == x {
            assert(v@[i as int] == y);
        }
    }
    assert(forall|y: (usize, usize)| v@.contains(y) <==> (old(v)@.contains(y) || y == x));
}

impl Nfa {
    /// The (group, target) pairs of the transitions on disjoint character
    /// classes from the given states, each pair once, ordered by target and
    /// then by group.
    pub fn get_match_transitions(&self, from: &Vec<usize>) -> (r: Vec<(usize, usize)>)
        requires
            self.wf(),
            forall|k: int| 0 <= k < from@.len() ==> #[trigger] from@[k] < self.states@.len(),
        ensures
            pairs_sorted(r@),
            forall|g: usize, t: usize| #[trigger] r@.contains((g, t)) <==> moves(*self, from@, g, t),
    {
        let mut out: Vec<(usize, usize)> = Vec::new();
        let mut p: usize = 0;
        while p < from.len()
            invariant
                p <= from@.len(),
                self.wf(),
                forall|k: int| 0 <= k < from@.len() ==> #[trigger] from@[k] < self.states@.len(),
                pairs_sorted(out@),
                forall|g: usize, t: usize| #[trigger] out@.contains((g, t)) <==> moves(*self, from@.take(p as int), g, t),
            decreases from.len() - p,
        {
            let s = from[p];
            let ts = &self.states[s].transitions;
            let ghost out_p = out@;
            let mut k: usize = 0;
            while k < ts.len()
                invariant
                    k <= ts@.len(),
                    p < from@.len(),
                    s == from@[p as int],
                    s < self.states@.len(),
                    ts@ == self.states@[s as int].transitions@,
                    pairs_sorted(out@),
                    forall|g: usize, t: usize| #[trigger] out@.contains((g, t)) <==> (out_p.contains((g, t))
                        || has_group_to(ts@.take(k as int), g, t)),
                decreases ts.len() - k,
            {
                let ghost out_k = out@;
                match &ts[k].character_class {
                    Some(CharacterClassType::Range(_, g)) => {
                        insert_sorted_pair(&mut out, (*g, ts[k].target));
                    },
                    _ => {},
                }
                proof {
                    assert forall|g: usize, t: usize| #[trigger] out@.contains((g, t)) <==> (out_p.contains((g, t))
                        || has_group_to(ts@.take(k + 1), g, t)) by {
                        let tk = ts@.take(k + 1);
                        if has_group_to(tk, g, t) && !has_group_to(ts@.take(k as int), g, t) {
                            let w = choose|w: int| 0 <= w < tk.len() && transition_group(#[trigger] tk[w]) == Some(g) && tk[w].target == t;
                            if w < k {
                                assert(ts@.take(k as int)[w] == tk[w]);
                            }
                            assert(w == k);
                        }
                        if has_group_to(ts@.take(k as int), g, t) {
                            let w = choose|w: int| 0 <= w < k && transition_group(#[trigger] ts@.take(k as int)[w]) == Some(g)
                                && ts@.take(k as int)[w].target == t;
                            assert(tk[w] == ts@.take(k as int)[w]);
                        }
                        if out@.contains((g, t)) && !out_k.contains((g, t)) {
                            assert(tk[k as int] == ts@[k as int]);
                        }
                    }
                }
                k = k + 1;
            }
            proof {
                assert(ts@.take(ts@.len() as int) =~= ts@);
                assert forall|g: usize, t: usize| #[trigger] out@.contains((g, t)) <==> moves(*self, from@.take(p + 1), g, t) by {
                    let f1 = from@.take(p + 1);
                    let f0 = from@.take(p as int);
                    if moves(*self, f1, g, t) {
                        let q = choose|q: int| 0 <= q < f1.len() && #[trigger] has_group_to(self.states@[f1[q] as int].transitions@, g, t);
                        if q < p {
                            assert(f0[q] == f1[q]);
                            assert(moves(*self, f0, g, t));
                        } else {
                            assert(f1[q] == s);
                        }
                    }
                    if moves(*self, f0, g, t) {
                        let q = choose|q: int| 0 <= q < f0.len() && #[trigger] has_group_to(self.states@[f0[q] as int].transitions@, g, t);
                        assert(f1[q] == f0[q]);
                    }
                    if has_group_to(ts@, g, t) {
                        assert(f1[p as int] == s);
                        assert(has_group_to(self.states@[f1[p as int] as int].transitions@, g, t));
                    }
                }
            }
            p = p + 1;
        }
        assert(from@.take(from@.len() as int) =~= from@);
        out
    }
}

} // verus!
