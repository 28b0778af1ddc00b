//! Properties of the scanner that span several operations: how mode
//! transitions compose, what captures and validations of runtime state give
//! each other, that the subset construction follows the NFA, and that
//! minimization keeps what a DFA accepts.
use vstd::prelude::*;
use crate::dfa::{
    copies_accept, has_key, has_transition_on, row_ok, rows_sorted, subset_construction, transitions_sorted, Dfa,
};
use crate::nfa::{eps_closed, has_group_to, is_closure_of, moves, Nfa};
use crate::dynamic_state::{expr_value, guard_matches, spec_is_eligible, spec_project, SpecValue};
use crate::find_matches::slots_after;
use crate::minimizer::{accept_keys, dfa_ok, quotient, transition_map};
use crate::scanner_impl::{accept_before, last_transition, mode_after, specificity, transition_for};
use crate::class_table::class_of;
use crate::dynamic_state::repeat_end;
use crate::types::{
    accept_specificity, constraint_holds, constraint_value, AcceptData, ConstraintExpr, DynamicExpr, DynamicGuard, DynamicOp, DynamicPattern,
    ScannerMode, Transition, ValidationConstraint,
};

verus! {

/// A push followed by a pop returns to the mode the push left, with the mode
/// stack as it was before the push.
pub proof fn law_push_then_pop_returns(
    modes: Seq<ScannerMode>,
    mode: usize,
    stack: Seq<usize>,
    push_type: usize,
    pop_type: usize,
)
    requires
        transition_for(modes, mode, push_type) matches Some(Transition::PushMode(_, _)),
        transition_for(modes, mode_after(modes, mode, stack, push_type).0, pop_type) matches Some(Transition::PopMode(_)),
    ensures
        ({
            let (m1, s1) = mode_after(modes, mode, stack, push_type);
            mode_after(modes, m1, s1, pop_type)
        }) == (mode, stack),
{
    let (m1, s1) = mode_after(modes, mode, stack, push_type);
    assert(s1 == stack.push(mode));
    assert(s1.drop_last() =~= stack);
}

/// A pop with an empty mode stack stays in the current mode.
pub proof fn law_pop_on_empty_stack_stays(modes: Seq<ScannerMode>, mode: usize, token_type: usize)
    requires
        transition_for(modes, mode, token_type) matches Some(Transition::PopMode(_)),
    ensures
        mode_after(modes, mode, Seq::empty(), token_type) == (mode, Seq::<usize>::empty()),
{
}

/// Entering a mode leaves the mode stack as it is; a token without a
/// transition changes nothing.
pub proof fn law_enter_keeps_stack(modes: Seq<ScannerMode>, mode: usize, stack: Seq<usize>, token_type: usize)
    ensures
        transition_for(modes, mode, token_type) matches Some(Transition::SetMode(_, m))
            ==> mode_after(modes, mode, stack, token_type) == (m, stack),
        transition_for(modes, mode, token_type) is None ==> mode_after(modes, mode, stack, token_type) == (mode, stack),
{
}

/// The slot a validation reads, if the operation is a validation.
pub open spec fn validated_slot(op: DynamicOp) -> Option<usize> {
    match op {
        DynamicOp::ValidateCount { state_index, .. } => Some(state_index),
        DynamicOp::ValidateStr { state_index } => Some(state_index),
        _ => None,
    }
}

/// The slot a count capture fills, if the operation is one.
pub open spec fn count_capture_slot(op: DynamicOp) -> Option<usize> {
    match op {
        DynamicOp::CaptureCount { state_index, .. } => Some(state_index),
        _ => None,
    }
}

/// The slot a count validation with the equality guard reads, if the
/// operation is one.
pub open spec fn equal_validation_slot(op: DynamicOp) -> Option<usize> {
    match op {
        DynamicOp::ValidateCount { state_index, guard: DynamicGuard::Equal, .. } => Some(state_index),
        _ => None,
    }
}

/// A validation against a slot that holds nothing fails.
pub proof fn law_missing_state_fails_validation(
    p: DynamicPattern,
    t: Seq<(char, char, usize)>,
    slots: Seq<Option<SpecValue>>,
    text: Seq<char>,
)
    requires
        validated_slot(p.op) is Some,
        (validated_slot(p.op)->0 as int) < slots.len(),
        slots[validated_slot(p.op)->0 as int] is None,
    ensures
        !spec_is_eligible(p, t, slots, text),
{
}

/// A capture stores what it projects from its text into its slot, whatever
/// the slot held before, and leaves the other slots as they were.
pub proof fn law_capture_overwrites(
    a: AcceptData,
    t: Seq<(char, char, usize)>,
    matched: Seq<char>,
    slots: Seq<Option<SpecValue>>,
    i: int,
)
    requires
        a.dynamic is Some,
        a.dynamic->0.op is CaptureCount || a.dynamic->0.op is CaptureStr,
        0 <= i < slots.len(),
    ensures
        ({
            let dp = a.dynamic->0;
            let idx = match dp.op {
                DynamicOp::CaptureCount { state_index, .. } => state_index as int,
                DynamicOp::CaptureStr { state_index } => state_index as int,
                _ => -1,
            };
            let after = slots_after(a, t, matched, slots);
            &&& after.len() == slots.len()
            &&& (idx < slots.len() && spec_project(dp, t, matched) is Some) ==> after[idx] == spec_project(dp, t, matched)
            &&& i != idx ==> after[i] == slots[i]
        }),
{
}

/// A count validation with the equality guard, on the slot a capture just
/// filled, succeeds exactly when the validated text projects the captured
/// count.
pub proof fn law_capture_then_validate_equal(
    capture: AcceptData,
    validate: DynamicPattern,
    t: Seq<(char, char, usize)>,
    captured_text: Seq<char>,
    validated_text: Seq<char>,
    slots: Seq<Option<SpecValue>>,
    c: usize,
)
    requires
        capture.dynamic is Some,
        count_capture_slot(capture.dynamic->0.op) is Some,
        (count_capture_slot(capture.dynamic->0.op)->0 as int) < slots.len(),
        spec_project(capture.dynamic->0, t, captured_text) == Some(SpecValue::Count(c)),
        equal_validation_slot(validate.op) == count_capture_slot(capture.dynamic->0.op),
    ensures
        spec_is_eligible(validate, t, slots_after(capture, t, captured_text, slots), validated_text)
            <==> spec_project(validate, t, validated_text) == Some(SpecValue::Count(c)),
{
}

/// The state a DFA of the generator reaches from its start state on a
/// sequence of character classes, if it does not get stuck.
pub open spec fn class_run(d: Dfa, w: Seq<usize>) -> Option<int>
    decreases w.len(),
{
    if w.len() == 0 {
        if d.states@.len() > 0 { Some(0) } else { None }
    } else {
        match class_run(d, w.drop_last()) {
            Some(q) => class_step(d, q, w.last()),
            None => None,
        }
    }
}

/// The target of the transition of state `q` on class `c`, if any.
pub open spec fn class_step(d: Dfa, q: int, c: usize) -> Option<int> {
    if 0 <= q < d.states@.len() && exists|k: int| 0 <= k < d.states@[q].transitions@.len()
        && (#[trigger] d.states@[q].transitions@[k]).elementary_interval_index == c {
        let k = choose|k: int| 0 <= k < d.states@[q].transitions@.len()
            && (#[trigger] d.states@[q].transitions@[k]).elementary_interval_index == c;
        Some(d.states@[q].transitions@[k].target as int)
    } else {
        None
    }
}

/// One step of the quotient follows the step of the DFA it was made from.
proof fn lemma_quotient_step(d: Dfa, min: Dfa, cls: Seq<usize>, s: int, c: usize)
    requires
        quotient(d, min, cls),
        dfa_ok(d),
        rows_sorted(d),
        0 <= s < d.states@.len(),
    ensures
        match class_step(d, s, c) {
            Some(t) => class_step(min, cls[s] as int, c) == Some(cls[t] as int),
            None => class_step(min, cls[s] as int, c) is None,
        },
{
    let r = cls[s] as int;
    let tmd = transition_map(d);
    let tmm = transition_map(min);
    assert(tmm[r] == tmd[s].map_values(|t: (usize, usize)| (t.0, cls[t.1 as int])));
    let ts = d.states@[s].transitions@;
    let tm = min.states@[r].transitions@;
    assert(tm.len() == ts.len()) by {
        assert(tmm[r].len() == tm.len());
        assert(tmd[s].len() == ts.len());
    }
    assert forall|k: int| 0 <= k < ts.len() implies
        (#[trigger] tm[k]).elementary_interval_index == ts[k].elementary_interval_index
        && tm[k].target == cls[ts[k].target as int] by {
        assert(tmm[r][k] == (tm[k].elementary_interval_index, tm[k].target));
        assert(tmd[s][k] == (ts[k].elementary_interval_index, ts[k].target));
    }
    assert(transitions_sorted(ts));
    if exists|k: int| 0 <= k < ts.len() && (#[trigger] ts[k]).elementary_interval_index == c {
        let k = choose|k: int| 0 <= k < ts.len() && (#[trigger] ts[k]).elementary_interval_index == c;
        assert(tm[k].elementary_interval_index == c);
        let km = choose|km: int| 0 <= km < tm.len() && (#[trigger] tm[km]).elementary_interval_index == c;
        assert(km == k) by {
            if km < k {
                assert(ts[km].elementary_interval_index < ts[k].elementary_interval_index);
            } else if km > k {
                assert(ts[k].elementary_interval_index < ts[km].elementary_interval_index);
            }
        }
    } else {
        assert forall|km: int| 0 <= km < tm.len() implies (#[trigger] tm[km]).elementary_interval_index != c by {
            assert(tm[km].elementary_interval_index == ts[km].elementary_interval_index);
        }
    }
}

/// Minimization keeps what a DFA accepts: on every sequence of character
/// classes the minimal DFA gets stuck exactly where the DFA does, and
/// otherwise reaches the state its state was merged into, which accepts the
/// same priorities and token types in the same order.
pub proof fn law_minimize_preserves_runs(d: Dfa, min: Dfa, cls: Seq<usize>, w: Seq<usize>)
    requires
        quotient(d, min, cls),
        dfa_ok(d),
        rows_sorted(d),
    ensures
        match class_run(d, w) {
            Some(s) => class_run(min, w) == Some(cls[s] as int)
                && accept_keys(min.states@[cls[s] as int]) == accept_keys(d.states@[s]),
            None => class_run(min, w) is None,
        },
    decreases w.len(),
{
    if w.len() == 0 {
        assert(cls[0] < min.states@.len());
    } else {
        law_minimize_preserves_runs(d, min, cls, w.drop_last());
        match class_run(d, w.drop_last()) {
            Some(s) => {
                lemma_quotient_step(d, min, cls, s, w.last());
                match class_step(d, s, w.last()) {
                    Some(t) => {
                        assert(t < d.states@.len()) by {
                            let k = choose|k: int| 0 <= k < d.states@[s].transitions@.len()
                                && (#[trigger] d.states@[s].transitions@[k]).elementary_interval_index == w.last();
                        }
                    },
                    None => {},
                }
            },
            None => {},
        }
    }
}

/// The states in the least set that holds `x` and is closed under epsilon
/// transitions: those in every such set.
pub open spec fn closure_set(nfa: Nfa, x: Set<usize>) -> Set<usize> {
    Set::new(|t: usize| forall|y: Set<usize>| #![trigger eps_closed(nfa, y), x.subset_of(y)]
        eps_closed(nfa, y) && x.subset_of(y) ==> y.contains(t))
}

/// The states that a transition on class `c` leads to from a state of `x`.
pub open spec fn step_set(nfa: Nfa, x: Set<usize>, c: usize) -> Set<usize> {
    Set::new(|t: usize| exists|s: usize| #[trigger] x.contains(s) && has_group_to(nfa.states@[s as int].transitions@, c, t))
}

/// The NFA states that the NFA can be in after reading a sequence of
/// character classes from its start state, epsilon transitions included.
pub open spec fn nfa_reach(nfa: Nfa, w: Seq<usize>) -> Set<usize>
    decreases w.len(),
{
    if w.len() == 0 {
        closure_set(nfa, set![nfa.start_state])
    } else {
        closure_set(nfa, step_set(nfa, nfa_reach(nfa, w.drop_last()), w.last()))
    }
}

/// Whether `p` is a copy of the pattern of an accepting state in `r`.
pub open spec fn copied_from(nfa: Nfa, r: Set<usize>, p: crate::pattern::Pattern) -> bool {
    exists|s: usize| r.contains(s) && #[trigger] copies_accept(nfa.states@[s as int], p)
}

/// A sorted closure of `x` holds exactly the states of the least closed set.
proof fn lemma_closure_set(nfa: Nfa, x: Set<usize>, r: Seq<usize>)
    requires
        is_closure_of(nfa, x, r),
    ensures
        r.to_set() == closure_set(nfa, x),
{
    let rs = r.to_set();
    assert forall|t: usize| rs.contains(t) <==> closure_set(nfa, x).contains(t) by {
        if rs.contains(t) {
            assert forall|y: Set<usize>| eps_closed(nfa, y) && x.subset_of(y) implies y.contains(t) by {
                assert(rs.subset_of(y));
            }
        }
        if closure_set(nfa, x).contains(t) {
            assert(eps_closed(nfa, rs) && x.subset_of(rs));
        }
    }
    assert(rs =~= closure_set(nfa, x));
}

/// The least closed set that holds nothing is empty.
proof fn lemma_closure_of_empty(nfa: Nfa)
    ensures
        closure_set(nfa, Set::empty()) == Set::<usize>::empty(),
{
    let e = Set::<usize>::empty();
    assert(eps_closed(nfa, e));
    assert(e.subset_of(e));
    assert(closure_set(nfa, e) =~= e);
}

/// Where the NFA moves on `c` from a set given as a sequence.
proof fn lemma_move_set(nfa: Nfa, from: Seq<usize>, c: usize)
    ensures
        crate::dfa::move_set(nfa, from, c) == step_set(nfa, from.to_set(), c),
{
    assert forall|t: usize| crate::dfa::move_set(nfa, from, c).contains(t) <==> step_set(nfa, from.to_set(), c).contains(t) by {
        if moves(nfa, from, c, t) {
            let p = choose|p: int| 0 <= p < from.len() && #[trigger] has_group_to(nfa.states@[from[p] as int].transitions@, c, t);
            assert(from.to_set().contains(from[p]));
        }
        if step_set(nfa, from.to_set(), c).contains(t) {
            let s = choose|s: usize| #[trigger] from.to_set().contains(s) && has_group_to(nfa.states@[s as int].transitions@, c, t);
            let p = choose|p: int| 0 <= p < from.len() && from[p] == s;
            assert(has_group_to(nfa.states@[from[p] as int].transitions@, c, t));
        }
    }
    assert(crate::dfa::move_set(nfa, from, c) =~= step_set(nfa, from.to_set(), c));
}

/// One step of the subset construction follows one step of the NFA.
proof fn lemma_subset_step(nfa: Nfa, d: Dfa, sets: Seq<Seq<usize>>, q: int, c: usize)
    requires
        subset_construction(nfa, d, sets),
        0 <= q < sets.len(),
    ensures
        match class_step(d, q, c) {
            Some(t) => 0 <= t < sets.len() && sets[t].to_set() == closure_set(nfa, step_set(nfa, sets[q].to_set(), c)),
            None => closure_set(nfa, step_set(nfa, sets[q].to_set(), c)) == Set::<usize>::empty(),
        },
{
    let ts = d.states@[q].transitions@;
    assert(row_ok(nfa, sets, q, ts));
    lemma_move_set(nfa, sets[q], c);
    if exists|k: int| 0 <= k < ts.len() && (#[trigger] ts[k]).elementary_interval_index == c {
        let k = choose|k: int| 0 <= k < ts.len() && (#[trigger] ts[k]).elementary_interval_index == c;
        lemma_closure_set(nfa, crate::dfa::move_set(nfa, sets[q], c), sets[ts[k].target as int]);
    } else {
        assert(!has_transition_on(ts, c));
        assert forall|t: usize| !step_set(nfa, sets[q].to_set(), c).contains(t) by {
            if step_set(nfa, sets[q].to_set(), c).contains(t) {
                assert(crate::dfa::move_set(nfa, sets[q], c).contains(t));
                assert(moves(nfa, sets[q], c, t));
            }
        }
        assert(step_set(nfa, sets[q].to_set(), c) =~= Set::<usize>::empty());
        lemma_closure_of_empty(nfa);
    }
}

/// The state the subset construction reaches on a sequence stands for the
/// NFA states reachable on it.
proof fn lemma_subset_run(nfa: Nfa, d: Dfa, sets: Seq<Seq<usize>>, w: Seq<usize>)
    requires
        subset_construction(nfa, d, sets),
    ensures
        match class_run(d, w) {
            Some(q) => 0 <= q < sets.len() && sets[q].to_set() == nfa_reach(nfa, w),
            None => nfa_reach(nfa, w) == Set::<usize>::empty(),
        },
    decreases w.len(),
{
    if w.len() == 0 {
        lemma_closure_set(nfa, set![nfa.start_state], sets[0]);
    } else {
        lemma_subset_run(nfa, d, sets, w.drop_last());
        match class_run(d, w.drop_last()) {
            Some(q) => {
                lemma_subset_step(nfa, d, sets, q, w.last());
            },
            None => {
                assert(step_set(nfa, Set::<usize>::empty(), w.last()) =~= Set::<usize>::empty());
                lemma_closure_of_empty(nfa);
            },
        }
    }
}

/// The subset construction follows the NFA: on every sequence of character
/// classes, the DFA gets stuck exactly where no NFA state is left, and
/// otherwise reaches the state that stands for the NFA states reachable on
/// the sequence; that state accepts a copy of the pattern of some reachable
/// accepting NFA state, one for every priority and token type accepted there.
pub proof fn law_subset_construction_follows_nfa(nfa: Nfa, d: Dfa, sets: Seq<Seq<usize>>, w: Seq<usize>)
    requires
        subset_construction(nfa, d, sets),
    ensures
        match class_run(d, w) {
            Some(q) => {
                &&& 0 <= q < sets.len()
                &&& sets[q].to_set() == nfa_reach(nfa, w)
                &&& forall|i: int| 0 <= i < d.states@[q].accepts@.len()
                    ==> copied_from(nfa, nfa_reach(nfa, w), #[trigger] d.states@[q].accepts@[i])
                &&& forall|s: usize| nfa_reach(nfa, w).contains(s) && (#[trigger] nfa.states@[s as int]).accept_data is Some
                    ==> has_key(d.states@[q].accepts@, nfa.states@[s as int].accept_data->0)
            },
            None => nfa_reach(nfa, w) == Set::<usize>::empty(),
        },
{
    lemma_subset_run(nfa, d, sets, w);
    match class_run(d, w) {
        Some(q) => {
            let acc = d.states@[q].accepts@;
            assert(crate::dfa::accepts_of(nfa, sets[q], acc));
            lemma_accepts_copied(nfa, sets[q], acc);
            lemma_accepts_keyed(nfa, sets[q], acc);
        },
        None => {},
    }
}

/// Each pattern a DFA state accepts copies that of an accepting NFA state of
/// the set it stands for.
proof fn lemma_accepts_copied(nfa: Nfa, set: Seq<usize>, acc: Seq<crate::pattern::Pattern>)
    requires
        forall|i: int| 0 <= i < acc.len() ==> crate::dfa::accepted_in(nfa, set, #[trigger] acc[i]),
    ensures
        forall|i: int| 0 <= i < acc.len() ==> copied_from(nfa, set.to_set(), #[trigger] acc[i]),
{
    assert forall|i: int| 0 <= i < acc.len() implies copied_from(nfa, set.to_set(), #[trigger] acc[i]) by {
        assert(crate::dfa::accepted_in(nfa, set, acc[i]));
        let k = choose|k: int| 0 <= k < set.len() && copies_accept(#[trigger] nfa.states@[set[k] as int], acc[i]);
        let s = set[k];
        assert(0 <= k < set.len());
        assert(copies_accept(nfa.states@[s as int], acc[i]));
        assert(set.to_set().contains(s));
    }
}

/// Every accepting NFA state of the set a DFA state stands for has its
/// priority and token type accepted there.
proof fn lemma_accepts_keyed(nfa: Nfa, set: Seq<usize>, acc: Seq<crate::pattern::Pattern>)
    requires
        forall|k: int| 0 <= k < set.len() && (#[trigger] nfa.states@[set[k] as int]).accept_data is Some
            ==> has_key(acc, nfa.states@[set[k] as int].accept_data->0),
    ensures
        forall|s: usize| set.to_set().contains(s) && (#[trigger] nfa.states@[s as int]).accept_data is Some
            ==> has_key(acc, nfa.states@[s as int].accept_data->0),
{
    assert forall|s: usize| set.to_set().contains(s) && (#[trigger] nfa.states@[s as int]).accept_data is Some
        implies has_key(acc, nfa.states@[s as int].accept_data->0) by {
        let k = choose|k: int| 0 <= k < set.len() && set[k] == s;
        assert(nfa.states@[set[k] as int].accept_data is Some);
    }
}

/// Whether an accepting state in `r` accepts with priority and token type
/// `key`.
pub open spec fn accepts_key_in(nfa: Nfa, r: Set<usize>, key: (usize, usize)) -> bool {
    exists|s: usize| #[trigger] r.contains(s) && (nfa.states@[s as int].accept_data matches Some(q)
        && (q.priority, q.terminal_type) == key)
}

/// The minimal DFA built from an NFA follows the NFA: on every sequence of
/// character classes it gets stuck where no NFA state is left, and otherwise
/// it reaches a state that accepts exactly the priorities and token types of
/// the reachable accepting NFA states, in order of preference.
pub proof fn law_minimal_dfa_follows_nfa(
    nfa: Nfa,
    d: Dfa,
    sets: Seq<Seq<usize>>,
    min: Dfa,
    cls: Seq<usize>,
    w: Seq<usize>,
)
    requires
        subset_construction(nfa, d, sets),
        quotient(d, min, cls),
    ensures
        match class_run(min, w) {
            Some(m) => {
                &&& crate::dfa::accepts_sorted(min.states@[m].accepts@)
                &&& forall|key: (usize, usize)| #[trigger] accept_keys(min.states@[m]).contains(key)
                    <==> accepts_key_in(nfa, nfa_reach(nfa, w), key)
            },
            None => nfa_reach(nfa, w) == Set::<usize>::empty(),
        },
{
    lemma_subset_rows(nfa, d, sets);
    law_minimize_preserves_runs(d, min, cls, w);
    law_subset_construction_follows_nfa(nfa, d, sets, w);
    match class_run(d, w) {
        Some(q) => {
            let m = cls[q] as int;
            assert(crate::dfa::accepts_of(nfa, sets[q], d.states@[q].accepts@));
            lemma_min_accepts_sorted(d, min, cls, q);
            lemma_keys_of_reach(nfa, d.states@[q], nfa_reach(nfa, w));
            assert(accept_keys(min.states@[m]) == accept_keys(d.states@[q]));
        },
        None => {},
    }
}

/// The subset construction gives a DFA whose transitions lead to states, at
/// most one per character class and state.
proof fn lemma_subset_rows(nfa: Nfa, d: Dfa, sets: Seq<Seq<usize>>)
    requires
        subset_construction(nfa, d, sets),
    ensures
        dfa_ok(d),
        rows_sorted(d),
{
    crate::dfa::lemma_construction_dfa_ok(nfa, d, sets);
    assert forall|q: int| 0 <= q < d.states@.len() implies transitions_sorted((#[trigger] d.states@[q]).transitions@) by {
        assert(row_ok(nfa, sets, q, d.states@[q].transitions@));
    }
}

/// The priorities and token types of patterns copied from the accepting
/// states of `r`, one for each of theirs, are those of the states of `r`.
proof fn lemma_keys_of_reach(nfa: Nfa, st: crate::dfa::DfaState, r: Set<usize>)
    requires
        forall|i: int| 0 <= i < st.accepts@.len() ==> copied_from(nfa, r, #[trigger] st.accepts@[i]),
        forall|s: usize| r.contains(s) && (#[trigger] nfa.states@[s as int]).accept_data is Some
            ==> has_key(st.accepts@, nfa.states@[s as int].accept_data->0),
    ensures
        forall|key: (usize, usize)| #[trigger] accept_keys(st).contains(key) <==> accepts_key_in(nfa, r, key),
{
    let acc = st.accepts@;
    let keys = accept_keys(st);
    assert forall|key: (usize, usize)| #[trigger] keys.contains(key) implies accepts_key_in(nfa, r, key) by {
        let i = choose|i: int| 0 <= i < keys.len() && keys[i] == key;
        assert(copied_from(nfa, r, acc[i]));
        let s = choose|s: usize| r.contains(s) && #[trigger] copies_accept(nfa.states@[s as int], acc[i]);
        assert(r.contains(s));
    }
    assert forall|key: (usize, usize)| accepts_key_in(nfa, r, key) implies #[trigger] keys.contains(key) by {
        let s = choose|s: usize| #[trigger] r.contains(s) && (nfa.states@[s as int].accept_data matches Some(p)
            && (p.priority, p.terminal_type) == key);
        assert(nfa.states@[s as int].accept_data is Some);
        assert(has_key(acc, nfa.states@[s as int].accept_data->0));
        let i = choose|i: int| 0 <= i < acc.len() && crate::dfa::same_key(#[trigger] acc[i], nfa.states@[s as int].accept_data->0);
        assert(keys[i] == key);
    }
}

/// A state of the quotient accepts in order of preference.
proof fn lemma_min_accepts_sorted(d: Dfa, min: Dfa, cls: Seq<usize>, q: int)
    requires
        quotient(d, min, cls),
        0 <= q < d.states@.len(),
        crate::dfa::accepts_sorted(d.states@[q].accepts@),
    ensures
        crate::dfa::accepts_sorted(min.states@[cls[q] as int].accepts@),
{
    let a = d.states@[q].accepts@;
    let b = min.states@[cls[q] as int].accepts@;
    assert(accept_keys(min.states@[cls[q] as int]) == accept_keys(d.states@[q]));
    assert forall|i: int, j: int| 0 <= i < j < b.len() implies crate::dfa::accept_lt(#[trigger] b[i], #[trigger] b[j]) by {
        assert(accept_keys(min.states@[cls[q] as int])[i] == accept_keys(d.states@[q])[i]);
        assert(accept_keys(min.states@[cls[q] as int])[j] == accept_keys(d.states@[q])[j]);
        assert(crate::dfa::accept_lt(a[i], a[j]));
    }
}

/// The value of an expression of a runtime-state guard over the stored count
/// `v`: a literal is itself and the stored count is `v`; where both operands
/// have values `a` and `b`, a sum is `a + b` if it fits in `usize` and has no
/// value otherwise, and a difference is `a - b` if `b <= a` and has no value
/// otherwise; where an operand has no value, neither has the sum or the
/// difference.
pub proof fn law_expression_arithmetic(l: DynamicExpr, r: DynamicExpr, x: usize, v: usize)
    ensures
        expr_value(DynamicExpr::Lit(x), v) == Some(x),
        expr_value(DynamicExpr::State, v) == Some(v),
        ({
            let sum = expr_value(DynamicExpr::Add(Box::new(l), Box::new(r)), v);
            let diff = expr_value(DynamicExpr::Sub(Box::new(l), Box::new(r)), v);
            &&& (expr_value(l, v) is None || expr_value(r, v) is None) ==> sum is None && diff is None
            &&& (expr_value(l, v) is Some && expr_value(r, v) is Some) ==> {
                let a = expr_value(l, v)->0;
                let b = expr_value(r, v)->0;
                &&& (sum is Some <==> a + b <= usize::MAX)
                &&& (sum is Some ==> sum->0 == a + b)
                &&& (diff is Some <==> b <= a)
                &&& (diff is Some ==> diff->0 == a - b)
            }
        }),
{
    reveal_with_fuel(expr_value, 2);
}

/// One more than the stored count: `n + 1` is `v + 1` for every stored count
/// `v` below the greatest `usize`, and has no value at it; `n - 1` is `v - 1`
/// for every positive `v`, and has no value at 0.
pub proof fn law_count_plus_minus_one(v: usize)
    ensures
        v < usize::MAX ==> expr_value(DynamicExpr::Add(Box::new(DynamicExpr::State), Box::new(DynamicExpr::Lit(1))), v)
            == Some((v + 1) as usize),
        v == usize::MAX ==> expr_value(DynamicExpr::Add(Box::new(DynamicExpr::State), Box::new(DynamicExpr::Lit(1))), v) is None,
        v > 0 ==> expr_value(DynamicExpr::Sub(Box::new(DynamicExpr::State), Box::new(DynamicExpr::Lit(1))), v)
            == Some((v - 1) as usize),
        v == 0 ==> expr_value(DynamicExpr::Sub(Box::new(DynamicExpr::State), Box::new(DynamicExpr::Lit(1))), v) is None,
{
    reveal_with_fuel(expr_value, 2);
}

/// A guard checks a counted value `p` against the stored count `s`: `Equal`
/// holds exactly when `p == s`, `LessThan` when `p < s`, and a range when
/// both bounds have values `lo` and `hi` with `lo <= p < hi`; a range with a
/// bound without value holds for no count.
pub proof fn law_guard_checks(g: DynamicGuard, p: usize, s: usize)
    ensures
        g is Equal ==> (guard_matches(g, p, s) <==> p == s),
        g is LessThan ==> (guard_matches(g, p, s) <==> p < s),
        g matches DynamicGuard::Range { min, max_exclusive } ==> (guard_matches(g, p, s) <==>
            exists|lo: usize, hi: usize| expr_value(min, s) == Some(lo) && expr_value(max_exclusive, s) == Some(hi)
                && lo <= p && p < hi),
{
    if let DynamicGuard::Range { min, max_exclusive } = g {
        if guard_matches(g, p, s) {
            let lo = expr_value(min, s)->0;
            let hi = expr_value(max_exclusive, s)->0;
            assert(expr_value(min, s) == Some(lo) && expr_value(max_exclusive, s) == Some(hi) && lo <= p && p < hi);
        }
    }
}

/// The value of a constraint expression over the stored value `n`, with
/// arithmetic that saturates: a literal is itself, `N` is `n`, a sum is
/// `a + b` or the greatest `usize` where that does not fit, and a difference
/// is `a - b` or 0 where `b > a`.
pub proof fn law_constraint_arithmetic(l: ConstraintExpr, r: ConstraintExpr, x: usize, n: usize)
    ensures
        constraint_value(ConstraintExpr::Lit(x), n) == x,
        constraint_value(ConstraintExpr::N, n) == n,
        ({
            let a = constraint_value(l, n);
            let b = constraint_value(r, n);
            let sum = constraint_value(ConstraintExpr::Add(Box::new(l), Box::new(r)), n);
            let diff = constraint_value(ConstraintExpr::Sub(Box::new(l), Box::new(r)), n);
            &&& a + b <= usize::MAX ==> sum == a + b
            &&& a + b > usize::MAX ==> sum == usize::MAX
            &&& b <= a ==> diff == a - b
            &&& b > a ==> diff == 0
        }),
{
    reveal_with_fuel(constraint_value, 2);
}

/// A validation constraint checks a captured length `len` against the stored
/// value `n`: `Equals` holds exactly when `len == n`, `LessThan` when
/// `len < n`, and a range when the value of its lower bound is at most `len`
/// and `len` is below the value of its upper bound.
pub proof fn law_constraint_checks(c: ValidationConstraint, len: usize, n: usize)
    ensures
        c is Equals ==> (constraint_holds(c, len, n) <==> len == n),
        c is LessThan ==> (constraint_holds(c, len, n) <==> len < n),
        c matches ValidationConstraint::Range { min, max_exclusive } ==> (constraint_holds(c, len, n) <==>
            constraint_value(min, n) <= len && len < constraint_value(max_exclusive, n)),
{
}

/// The class table classifies a character by the interval that holds it:
/// where the intervals are sorted and disjoint, a character with
/// `start <= c <= end` in an interval gets that interval's class, and a
/// character in no interval gets none.
pub proof fn law_class_lookup(iv: Seq<(char, char, usize)>, c: char)
    requires
        crate::class_table::intervals_wf(iv),
    ensures
        forall|i: int| 0 <= i < iv.len() && iv[i].0 <= c && c <= iv[i].1 ==> class_of(iv, c) == Some(#[trigger] iv[i].2),
        (forall|i: int| 0 <= i < iv.len() ==> !(iv[i].0 <= c && c <= #[trigger] iv[i].1)) ==> class_of(iv, c) is None,
{
    assert forall|i: int| 0 <= i < iv.len() && iv[i].0 <= c && c <= iv[i].1 implies class_of(iv, c) == Some(#[trigger] iv[i].2) by {
        assert(crate::class_table::interval_contains(iv, i, c));
        let j = choose|j: int| crate::class_table::interval_contains(iv, j, c);
        if j < i {
            assert(iv[j].1 < iv[i].0);
        } else if i < j {
            assert(iv[i].1 < iv[j].0);
        }
    }
    if forall|i: int| 0 <= i < iv.len() ==> !(iv[i].0 <= c && c <= #[trigger] iv[i].1) {
        if exists|i: int| crate::class_table::interval_contains(iv, i, c) {
            let j = choose|j: int| crate::class_table::interval_contains(iv, j, c);
            assert(!(iv[j].0 <= c && c <= iv[j].1));
        }
    }
}

proof fn lemma_last_transition_choice(ts: Seq<Transition>, t: usize)
    ensures
        last_transition(ts, t) is None <==> forall|k: int| 0 <= k < ts.len() ==> (#[trigger] ts[k]).spec_token_type() != t,
        last_transition(ts, t) matches Some(tr) ==> exists|k: int| 0 <= k < ts.len() && ts[k] == tr
            && tr.spec_token_type() == t
            && forall|j: int| k < j < ts.len() ==> (#[trigger] ts[j]).spec_token_type() != t,
    decreases ts.len(),
{
    if ts.len() > 0 {
        let last = ts.len() - 1;
        lemma_last_transition_choice(ts.drop_last(), t);
        if ts.last().spec_token_type() == t {
            assert(ts[last] == ts.last());
        } else {
            assert forall|k: int| 0 <= k < ts.len() - 1 implies #[trigger] ts[k] == ts.drop_last()[k] by {}
            if last_transition(ts.drop_last(), t) is None {
                assert forall|k: int| 0 <= k < ts.len() implies (#[trigger] ts[k]).spec_token_type() != t by {
                    if k < last {
                        assert(ts.drop_last()[k] == ts[k]);
                    }
                }
            } else {
                let tr = last_transition(ts.drop_last(), t)->0;
                let k = choose|k: int| 0 <= k < ts.drop_last().len() && ts.drop_last()[k] == tr
                    && tr.spec_token_type() == t
                    && forall|j: int| k < j < ts.drop_last().len() ==> (#[trigger] ts.drop_last()[j]).spec_token_type() != t;
                assert(ts[k] == tr);
                assert forall|j: int| k < j < ts.len() implies (#[trigger] ts[j]).spec_token_type() != t by {
                    if j < last {
                        assert(ts.drop_last()[j] == ts[j]);
                    }
                }
                assert(ts.drop_last()[k] == ts[k]);
            }
        }
    }
}

/// The transition a token triggers in a mode is the last of the mode's
/// transitions with the token's type; there is none where no transition of
/// the mode has that type or the mode does not exist.
pub proof fn law_transition_choice(modes: Seq<ScannerMode>, mode: usize, token_type: usize)
    ensures
        transition_for(modes, mode, token_type) is None <==> ((mode as int) >= modes.len()
            || forall|k: int| 0 <= k < modes[mode as int].transitions@.len()
                ==> (#[trigger] modes[mode as int].transitions@[k]).spec_token_type() != token_type),
        transition_for(modes, mode, token_type) matches Some(tr) ==> exists|k: int|
            0 <= k < modes[mode as int].transitions@.len() && modes[mode as int].transitions@[k] == tr
            && tr.spec_token_type() == token_type
            && forall|j: int| k < j < modes[mode as int].transitions@.len()
                ==> (#[trigger] modes[mode as int].transitions@[j]).spec_token_type() != token_type,
{
    if (mode as int) < modes.len() {
        lemma_last_transition_choice(modes[mode as int].transitions@, token_type);
    }
}

/// Among accepts of the same priority the more specific check comes first:
/// an equality check and a string validation before a range, a range before
/// a less-than check, and a less-than check before a capture or an accept
/// without a check; a lower priority always comes first. The rank used to
/// order the generated accept lists is the same.
pub proof fn law_specificity_order(a: AcceptData, b: AcceptData)
    ensures
        a.priority < b.priority ==> accept_before(a, b),
        a.priority > b.priority ==> !accept_before(a, b),
        ({
            let eq = |x: AcceptData| x.dynamic matches Some(p) && (p.op matches DynamicOp::ValidateCount { guard: DynamicGuard::Equal, .. }
                || p.op is ValidateStr);
            let range = |x: AcceptData| x.dynamic matches Some(p) && p.op matches DynamicOp::ValidateCount { guard: DynamicGuard::Range { .. }, .. };
            let less = |x: AcceptData| x.dynamic matches Some(p) && p.op matches DynamicOp::ValidateCount { guard: DynamicGuard::LessThan, .. };
            let none = |x: AcceptData| !(x.dynamic matches Some(p) && (p.op is ValidateCount || p.op is ValidateStr));
            a.priority == b.priority ==> {
                &&& eq(a) && (range(b) || less(b) || none(b)) ==> accept_before(a, b) && !accept_before(b, a)
                &&& range(a) && (less(b) || none(b)) ==> accept_before(a, b) && !accept_before(b, a)
                &&& less(a) && none(b) ==> accept_before(a, b) && !accept_before(b, a)
            }
        }),
        accept_specificity(a) == specificity(a),
{
}

/// Copies of a unit in a text: `c` copies of `unit` from `at` end at
/// `at + c * |unit|` exactly when the text holds `unit` at each of the `c`
/// places `at + i * |unit|`, all within the text.
pub proof fn law_repeat_copies(text: Seq<char>, at: int, unit: Seq<char>, c: nat)
    requires
        0 <= at <= text.len(),
    ensures
        repeat_end(text, at, unit, c) is Some <==> (at + (c as int) * (unit.len() as int) <= text.len()
            && forall|i: int| 0 <= i < c ==> #[trigger] text.subrange(at + i * unit.len(), at + (i + 1) * unit.len()) == unit),
        repeat_end(text, at, unit, c) matches Some(e) ==> e == at + (c as int) * (unit.len() as int),
    decreases c,
{
    let u = unit.len() as int;
    if c > 0 {
        let m = (c - 1) as int;
        law_repeat_copies(text, at, unit, m as nat);
        let e = at + m * u;
        assert(at + c * u == e + u) by (nonlinear_arith)
            requires m == c - 1, e == at + m * u;
        assert(at + (m + 1) * u == e + u) by (nonlinear_arith)
            requires e == at + m * u;
        assert(0 <= m * u) by (nonlinear_arith)
            requires m >= 0, u >= 0;
        let prev = repeat_end(text, at, unit, m as nat);
        let all_c = forall|i: int| 0 <= i < c ==> #[trigger] text.subrange(at + i * u, at + (i + 1) * u) == unit;
        let all_m = forall|i: int| 0 <= i < m ==> #[trigger] text.subrange(at + i * u, at + (i + 1) * u) == unit;
        if repeat_end(text, at, unit, c) is Some {
            assert(prev is Some);
            assert(prev == Some(e));
            assert(text.subrange(e, e + u) == unit);
            assert forall|i: int| 0 <= i < c implies #[trigger] text.subrange(at + i * u, at + (i + 1) * u) == unit by {
                if i == m {
                    assert(at + i * u == e);
                }
            }
            assert(at + c * u <= text.len());
        }
        if at + c * u <= text.len() && all_c {
            assert(all_m) by {
                assert forall|i: int| 0 <= i < m implies #[trigger] text.subrange(at + i * u, at + (i + 1) * u) == unit by {
                    assert(0 <= i < c);
                }
            }
            assert(prev == Some(e));
            assert(text.subrange(at + m * u, at + (m + 1) * u) == unit);
            assert(text.subrange(e, e + u) == unit);
            assert(repeat_end(text, at, unit, c) == Some(e + u));
        }
    }
}

proof fn lemma_encode_len_last(s: Seq<char>)
    requires
        s.len() > 0,
    ensures
        vstd::utf8::encode_utf8(s).len() == vstd::utf8::encode_utf8(s.drop_last()).len()
            + vstd::utf8::encode_scalar(s.last() as u32).len(),
    decreases s.len(),
{
    if s.len() > 1 {
        lemma_encode_len_last(s.drop_first());
        assert(s.drop_first().drop_last() =~= s.drop_last().drop_first());
        assert(s.drop_first().last() == s.last());
        assert(s.drop_last()[0] == s[0]);
    } else {
        assert(s.drop_first() =~= Seq::<char>::empty());
        assert(s.drop_last() =~= Seq::<char>::empty());
    }
}

/// The byte length the scanner counts positions in is that of the UTF-8
/// encoding: for every text, `byte_len` is the length of its UTF-8 bytes, and
/// every character is as wide as its own encoding.
pub proof fn law_byte_len_is_utf8(s: Seq<char>, c: char)
    ensures
        crate::text::char_width(c) == vstd::utf8::encode_scalar(c as u32).len(),
        crate::text::byte_len(s) == vstd::utf8::encode_utf8(s).len(),
    decreases s.len(),
{
    vstd::utf8::char_is_scalar(c);
    if s.len() > 0 {
        law_byte_len_is_utf8(s.drop_last(), s.last());
        lemma_encode_len_last(s);
    }
}

/// The line and column of a character of the input: its line is one more
/// than the number of newlines before it; its column is one more than its
/// index where no newline comes before it, and otherwise its distance from
/// the last newline before it.
pub proof fn law_char_position(s: Seq<char>, i: nat)
    requires
        i <= s.len(),
    ensures
        crate::find_matches::char_position(s, i).0 == 1 + s.take(i as int).filter(|c: char| c == '\n').len(),
        (forall|k: int| 0 <= k < i ==> s[k] != '\n') ==> crate::find_matches::char_position(s, i).1 == i + 1,
        forall|j: int| 0 <= j < i && s[j] == '\n' && (forall|k: int| j < k < i ==> s[k] != '\n')
            ==> #[trigger] crate::find_matches::char_position(s, i).1 == i - j,
    decreases i,
{
    reveal_with_fuel(Seq::filter, 1);
    if i > 0 {
        law_char_position(s, (i - 1) as nat);
        let t = s.take(i as int);
        assert(t.drop_last() =~= s.take(i - 1));
        assert(t.last() == s[i - 1]);
        assert forall|j: int| 0 <= j < i && s[j] == '\n' && (forall|k: int| j < k < i ==> s[k] != '\n')
            implies #[trigger] crate::find_matches::char_position(s, i).1 == i - j by {
            if j < i - 1 {
                assert(s[i - 1] != '\n');
                assert(forall|k: int| j < k < i - 1 ==> s[k] != '\n');
            }
        }
    }
}

/// A name without uppercase characters is its own snake-case form, and
/// snake case never shortens a name.
pub proof fn law_snake_case_plain(s: Seq<char>)
    ensures
        (forall|k: int| 0 <= k < s.len() ==> !crate::generate::char_is_uppercase(#[trigger] s[k]))
            ==> crate::generate::snake_case(s) == s,
        crate::generate::snake_case(s).len() >= s.len(),
    decreases s.len(),
{
    if s.len() > 0 {
        law_snake_case_plain(s.drop_last());
        if forall|k: int| 0 <= k < s.len() ==> !crate::generate::char_is_uppercase(#[trigger] s[k]) {
            assert(forall|k: int| 0 <= k < s.drop_last().len() ==> s.drop_last()[k] == s[k]);
            assert(!crate::generate::char_is_uppercase(s[s.len() - 1]));
            assert(s.drop_last().push(s.last()) =~= s);
        }
    }
}

} // verus!
