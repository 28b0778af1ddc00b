//! Deterministic finite automata of the scanner generator, built from NFAs by
//! the subset construction.
use vstd::prelude::*;
use vstd::string::StringExecFns;
use crate::nfa::{
    transition_group, split_transitions, has_group_to,
    converted, insert_sorted_id, is_closure_of, lemma_closure_of_seeds, moves, pairs_sorted,
    strictly_sorted, Nfa,
};
use crate::pattern::{pattern_same, Pattern, PatternDynamic};

verus! {

/// A transition of a DFA on a disjoint character class to a target state.
pub struct DfaTransition {
    /// The number of the disjoint character class.
    pub elementary_interval_index: usize,
    /// The target state.
    pub target: usize,
}

/// A state of a DFA: its transitions, and the patterns it accepts in order of
/// preference.
pub struct DfaState {
    pub transitions: Vec<DfaTransition>,
    pub accepts: Vec<Pattern>,
}

/// A deterministic finite automaton; the id of a state is its index, and
/// state 0 is the start state.
pub struct Dfa {
    pub states: Vec<DfaState>,
}

impl DfaTransition {
    /// A transition on the given disjoint character class to `target`.
    pub fn new(elementary_interval_index: usize, target: usize) -> (t: DfaTransition)
        ensures
            t.elementary_interval_index == elementary_interval_index,
            t.target == target,
    {
        DfaTransition { elementary_interval_index, target }
    }
}

/// The order of preference of accepted patterns: by priority, then by token
/// type.
pub open spec fn accept_lt(a: Pattern, b: Pattern) -> bool {
    a.priority < b.priority || (a.priority == b.priority && a.terminal_type < b.terminal_type)
}

/// Two patterns of the same priority and token type.
pub open spec fn same_key(a: Pattern, b: Pattern) -> bool {
    a.priority == b.priority && a.terminal_type == b.terminal_type
}

/// Patterns in strictly increasing order of preference.
pub open spec fn accepts_sorted(s: Seq<Pattern>) -> bool {
    forall|i: int, j: int| 0 <= i < j < s.len() ==> accept_lt(#[trigger] s[i], #[trigger] s[j])
}

/// Whether `s` holds a pattern with the priority and token type of `p`.
pub open spec fn has_key(s: Seq<Pattern>, p: Pattern) -> bool {
    exists|i: int| 0 <= i < s.len() && same_key(#[trigger] s[i], p)
}

impl DfaState {
    /// A state without transitions that accepts nothing.
    pub fn new() -> (s: DfaState)
        ensures
            s.transitions@.len() == 0,
            s.accepts@.len() == 0,
    {
        DfaState { transitions: Vec::new(), accepts: Vec::new() }
    }

    /// Adds an accepted pattern in its place of preference, unless a pattern
    /// of the same priority and token type is there already.
    pub fn add_accept(&mut self, accept: Pattern)
        requires
            accepts_sorted(old(self).accepts@),
        ensures
            accepts_sorted(final(self).accepts@),
            final(self).transitions == old(self).transitions,
            forall|i: int| 0 <= i < final(self).accepts@.len() ==>
                old(self).accepts@.contains(#[trigger] final(self).accepts@[i]) || final(self).accepts@[i] == accept,
            forall|i: int| 0 <= i < old(self).accepts@.len() ==> final(self).accepts@.contains(#[trigger] old(self).accepts@[i]),
            has_key(final(self).accepts@, accept),
    {
        let mut i: usize = 0;
        while i < self.accepts.len() && (self.accepts[i].priority < accept.priority
            || (self.accepts[i].priority == accept.priority && self.accepts[i].terminal_type < accept.terminal_type))
            invariant
                i <= self.accepts@.len(),
                self.accepts@ == old(self).accepts@,
                forall|k: int| 0 <= k < i ==> accept_lt(#[trigger] self.accepts@[k], accept),
            decreases self.accepts.len() - i,
        {
            i = i + 1;
        }
        if i < self.accepts.len() && self.accepts[i].priority == accept.priority
            && self.accepts[i].terminal_type == accept.terminal_type {
            assert(same_key(self.accepts@[i as int], accept));
            assert forall|k: int| 0 <= k < self.accepts@.len() implies old(self).accepts@.contains(#[trigger] self.accepts@[k]) by {
                assert(old(self).accepts@[k] == self.accepts@[k]);
            }
            return;
        }
        let ghost before = self.accepts@;
        assert(i < before.len() ==> accept_lt(accept, before[i as int]));
        self.accepts.insert(i, accept);
        proof {
            assert forall|a: int, b: int| 0 <= a < b < self.accepts@.len() implies
                accept_lt(#[trigger] self.accepts@[a], #[trigger] self.accepts@[b]) by {
                if b < i {
                    assert(self.accepts@[a] == before[a] && self.accepts@[b] == before[b]);
                } else if b == i {
                    assert(self.accepts@[a] == before[a]);
                } else if a == i {
                    assert(self.accepts@[b] == before[b - 1]);
                    if b - 1 > i {
                        assert(accept_lt(before[i as int], before[b - 1]));
                    }
                } else if a < i {
                    assert(self.accepts@[a] == before[a] && self.accepts@[b] == before[b - 1]);
                } else {
                    assert(self.accepts@[a] == before[a - 1] && self.accepts@[b] == before[b - 1]);
                }
            }
            assert forall|k: int| 0 <= k < self.accepts@.len() implies
                before.contains(#[trigger] self.accepts@[k]) || self.accepts@[k] == accept by {
                if k < i {
                    assert(before[k] == self.accepts@[k]);
                } else if k > i {
                    assert(before[k - 1] == self.accepts@[k]);
                }
            }
            assert forall|k: int| 0 <= k < before.len() implies self.accepts@.contains(#[trigger] before[k]) by {
                if k < i {
                    assert(self.accepts@[k] == before[k]);
                } else {
                    assert(self.accepts@[k + 1] == before[k]);
                }
            }
            assert(same_key(self.accepts@[i as int], accept));
        }
    }

    /// Whether some accepted pattern has a resolved runtime-state operation.
    pub fn has_dynamic_accepts(&self) -> (r: bool)
        ensures
            r == exists|i: int| 0 <= i < self.accepts@.len()
                && (#[trigger] self.accepts@[i]).dynamic matches Some(PatternDynamic::Compiled(_)),
    {
        let mut i: usize = 0;
        while i < self.accepts.len()
            invariant
                i <= self.accepts@.len(),
                forall|k: int| 0 <= k < i ==> !((#[trigger] self.accepts@[k]).dynamic matches Some(PatternDynamic::Compiled(_))),
            decreases self.accepts.len() - i,
        {
            match &self.accepts[i].dynamic {
                Some(PatternDynamic::Compiled(_)) => {
                    return true;
                },
                _ => {},
            }
            i = i + 1;
        }
        false
    }
}

/// Whether `p` is a copy of the pattern that the NFA state accepts.
pub open spec fn copies_accept(s: crate::nfa::NfaState, p: Pattern) -> bool {
    s.accept_data matches Some(q) && pattern_same(p, q)
}

/// Whether `p` is a copy of the pattern of an accepting state of `set`.
pub open spec fn accepted_in(nfa: Nfa, set: Seq<usize>, p: Pattern) -> bool {
    exists|k: int| 0 <= k < set.len() && copies_accept(#[trigger] nfa.states@[set[k] as int], p)
}

/// The accepted patterns `acc` of a DFA state that stands for the NFA states
/// `set`: in order of preference, each a copy of the pattern of an accepting
/// state of the set, and one for every priority and token type accepted there.
pub open spec fn accepts_of(nfa: Nfa, set: Seq<usize>, acc: Seq<Pattern>) -> bool {
    &&& accepts_sorted(acc)
    &&& forall|i: int| 0 <= i < acc.len() ==> accepted_in(nfa, set, #[trigger] acc[i])
    &&& forall|k: int| 0 <= k < set.len() && (#[trigger] nfa.states@[set[k] as int]).accept_data is Some
        ==> has_key(acc, nfa.states@[set[k] as int].accept_data->0)
}


/// The accepted patterns of a DFA state that stands for the NFA states `set`.
fn accepts_for(nfa: &Nfa, set: &Vec<usize>) -> (r: Vec<Pattern>)
    requires
        nfa.wf(),
        forall|k: int| 0 <= k < set@.len() ==> #[trigger] set@[k] < nfa.states@.len(),
    ensures
        accepts_of(*nfa, set@, r@),
{
    let mut st = DfaState::new();
    let mut k: usize = 0;
    while k < set.len()
        invariant
            k <= set@.len(),
            nfa.wf(),
            forall|u: int| 0 <= u < set@.len() ==> #[trigger] set@[u] < nfa.states@.len(),
            accepts_sorted(st.accepts@),
            forall|i: int| 0 <= i < st.accepts@.len() ==> accepted_in(*nfa, set@, #[trigger] st.accepts@[i]),
            forall|u: int| 0 <= u < k && (#[trigger] nfa.states@[set@[u] as int]).accept_data is Some
                ==> has_key(st.accepts@, nfa.states@[set@[u] as int].accept_data->0),
        decreases set.len() - k,
    {
        let s = set[k];
        match &nfa.states[s].accept_data {
            Some(p) => {
                let ghost before = st.accepts@;
                let q = p.duplicate();
                st.add_accept(q);
                proof {
                    assert(copies_accept(nfa.states@[set@[k as int] as int], q));
                    assert forall|i: int| 0 <= i < st.accepts@.len() implies accepted_in(*nfa, set@, #[trigger] st.accepts@[i]) by {
                        if before.contains(st.accepts@[i]) {
                            let j = choose|j: int| 0 <= j < before.len() && before[j] == st.accepts@[i];
                            assert(accepted_in(*nfa, set@, before[j]));
                        } else {
                            assert(st.accepts@[i] == q);
                            assert(copies_accept(nfa.states@[set@[k as int] as int], st.accepts@[i]));
                        }
                    }
                    assert forall|u: int| 0 <= u < k + 1 && (#[trigger] nfa.states@[set@[u] as int]).accept_data is Some
                        implies has_key(st.accepts@, nfa.states@[set@[u] as int].accept_data->0) by {
                        if u < k {
                            let pu = nfa.states@[set@[u] as int].accept_data->0;
                            let j = choose|j: int| 0 <= j < before.len() && same_key(#[trigger] before[j], pu);
                            assert(st.accepts@.contains(before[j]));
                            let j2 = choose|j2: int| 0 <= j2 < st.accepts@.len() && st.accepts@[j2] == before[j];
                            assert(same_key(st.accepts@[j2], pu));
                        } else {
                            let j = choose|j: int| 0 <= j < st.accepts@.len() && same_key(#[trigger] st.accepts@[j], q);
                            assert(same_key(st.accepts@[j], nfa.states@[set@[u] as int].accept_data->0));
                        }
                    }
                }
            },
            None => {},
        }
        k = k + 1;
    }
    st.accepts
}


/// The groups of the pairs, each once, in increasing order.
fn distinct_groups(pairs: &Vec<(usize, usize)>) -> (r: Vec<usize>)
    ensures
        strictly_sorted(r@),
        forall|g: usize| r@.contains(g) <==> exists|t: usize| #[trigger] pairs@.contains((g, t)),
{
    let mut r: Vec<usize> = Vec::new();
    let mut k: usize = 0;
    while k < pairs.len()
        invariant
            k <= pairs@.len(),
            strictly_sorted(r@),
            forall|g: usize| r@.contains(g) <==> exists|t: usize| #[trigger] pairs@.take(k as int).contains((g, t)),
        decreases pairs.len() - k,
    {
        let (g, t) = pairs[k];
        let ghost r0 = r@;
        insert_sorted_id(&mut r, g);
        proof {
            let p0 = pairs@.take(k as int);
            let p1 = pairs@.take(k + 1);
            assert(p1[k as int] == (g, t));
            assert forall|h: usize| r@.contains(h) <==> exists|u: usize| #[trigger] p1.contains((h, u)) by {
                if r@.contains(h) {
                    if h == g {
                        assert(p1.contains((g, t)));
                    } else {
                        assert(r0.contains(h));
                        let u = choose|u: usize| #[trigger] p0.contains((h, u));
                        let w = choose|w: int| 0 <= w < p0.len() && p0[w] == (h, u);
                        assert(p1[w] == (h, u));
                        assert(p1.contains((h, u)));
                    }
                }
                if exists|u: usize| #[trigger] p1.contains((h, u)) {
                    let u = choose|u: usize| #[trigger] p1.contains((h, u));
                    let w = choose|w: int| 0 <= w < p1.len() && p1[w] == (h, u);
                    if w < k {
                        assert(p0[w] == (h, u));
                        assert(p0.contains((h, u)));
                        assert(r0.contains(h));
                    }
                }
            }
        }
        k = k + 1;
    }
    assert(pairs@.take(pairs@.len() as int) =~= pairs@);
    r
}

/// The targets of the pairs of group `g`.
fn group_targets(pairs: &Vec<(usize, usize)>, g: usize) -> (r: Vec<usize>)
    ensures
        forall|t: usize| r@.contains(t) <==> pairs@.contains((g, t)),
{
    let mut r: Vec<usize> = Vec::new();
    let mut k: usize = 0;
    while k < pairs.len()
        invariant
            k <= pairs@.len(),
            forall|t: usize| r@.contains(t) <==> pairs@.take(k as int).contains((g, t)),
        decreases pairs.len() - k,
    {
        let ghost r0 = r@;
        let ghost p0 = pairs@.take(k as int);
        let ghost p1 = pairs@.take(k + 1);
        assert(forall|t: usize| r0.contains(t) <==> p0.contains((g, t)));
        if pairs[k].0 == g {
            r.push(pairs[k].1);
        }
        proof {
            assert(p1[k as int] == pairs@[k as int]);
            assert forall|t: usize| r@.contains(t) <==> p1.contains((g, t)) by {
                if r@.contains(t) {
                    let w = choose|w: int| 0 <= w < r@.len() && r@[w] == t;
                    if w < r0.len() {
                        assert(r0[w] == t);
                        assert(r0.contains(t));
                        assert(p0.contains((g, t)));
                        let v = choose|v: int| 0 <= v < p0.len() && p0[v] == (g, t);
                        assert(p1[v] == (g, t));
                    }
                }
                if p1.contains((g, t)) {
                    let v = choose|v: int| 0 <= v < p1.len() && p1[v] == (g, t);
                    if v < k {
                        assert(p0[v] == (g, t));
                        assert(r0.contains(t));
                        let w = choose|w: int| 0 <= w < r0.len() && r0[w] == t;
                        assert(r@[w] == t);
                    } else {
                        assert(r@[r@.len() - 1] == t);
                    }
                }
            }
        }
        k = k + 1;
    }
    assert(pairs@.take(pairs@.len() as int) =~= pairs@);
    r
}

/// Whether two vectors of ids are equal.
fn same_ids(a: &Vec<usize>, b: &Vec<usize>) -> (r: bool)
    ensures
        r == (a@ == b@),
{
    if a.len() != b.len() {
        return false;
    }
    let mut i: usize = 0;
    while i < a.len()
        invariant
            i <= a@.len(),
            a@.len() == b@.len(),
            forall|k: int| 0 <= k < i ==> a@[k] == b@[k],
        decreases a.len() - i,
    {
        if a[i] != b[i] {
            assert(a@[i as int] != b@[i as int]);
            return false;
        }
        i = i + 1;
    }
    assert(a@ =~= b@);
    true
}

/// The index of the set equal to `c`, if any.
fn find_set(sets: &Vec<Vec<usize>>, c: &Vec<usize>) -> (r: Option<usize>)
    ensures
        r matches Some(j) ==> j < sets@.len() && sets@[j as int]@ == c@,
        r is None ==> forall|j: int| 0 <= j < sets@.len() ==> (#[trigger] sets@[j])@ != c@,
{
    let mut j: usize = 0;
    while j < sets.len()
        invariant
            j <= sets@.len(),
            forall|u: int| 0 <= u < j ==> (#[trigger] sets@[u])@ != c@,
        decreases sets.len() - j,
    {
        if same_ids(&sets[j], c) {
            return Some(j);
        }
        j = j + 1;
    }
    None
}


/// The states reached from `from` on group `g`, before the epsilon closure.
pub open spec fn move_set(nfa: Nfa, from: Seq<usize>, g: usize) -> Set<usize> {
    Set::new(|t: usize| moves(nfa, from, g, t))
}

/// A strictly increasing sequence of states of the NFA.
pub open spec fn set_ok(nfa: Nfa, s: Seq<usize>) -> bool {
    &&& strictly_sorted(s)
    &&& forall|k: int| 0 <= k < s.len() ==> #[trigger] s[k] < nfa.states@.len()
}

/// Whether the transitions hold one on group `g`.
pub open spec fn has_transition_on(ts: Seq<DfaTransition>, g: usize) -> bool {
    exists|k: int| 0 <= k < ts.len() && (#[trigger] ts[k]).elementary_interval_index == g
}

/// Transitions in strictly increasing order of their groups.
pub open spec fn transitions_sorted(ts: Seq<DfaTransition>) -> bool {
    forall|i: int, j: int| 0 <= i < j < ts.len() ==>
        (#[trigger] ts[i]).elementary_interval_index < (#[trigger] ts[j]).elementary_interval_index
}

/// The transitions `ts` of DFA state `d` follow the subset construction: one
/// per group on which some NFA state of the set moves, to the state whose set
/// is the epsilon closure of where the set moves on that group.
pub open spec fn row_ok(nfa: Nfa, sets: Seq<Seq<usize>>, d: int, ts: Seq<DfaTransition>) -> bool {
    &&& transitions_sorted(ts)
    &&& forall|g: usize| #[trigger] has_transition_on(ts, g) <==> exists|t: usize| moves(nfa, sets[d], g, t)
    &&& forall|k: int| 0 <= k < ts.len() ==> {
        &&& (#[trigger] ts[k]).target < sets.len()
        &&& is_closure_of(nfa, move_set(nfa, sets[d], ts[k].elementary_interval_index), sets[ts[k].target as int])
    }
}

/// `dfa` is the subset construction of `nfa`, DFA state `d` standing for the
/// set `sets[d]` of NFA states: state 0 stands for the epsilon closure of the
/// start state, no two states stand for the same set, the transitions follow
/// the construction, and each state accepts what the states of its set accept.
pub open spec fn subset_construction(nfa: Nfa, dfa: Dfa, sets: Seq<Seq<usize>>) -> bool {
    &&& sets.len() == dfa.states@.len()
    &&& sets.len() > 0
    &&& is_closure_of(nfa, set![nfa.start_state], sets[0])
    &&& forall|d: int| 0 <= d < sets.len() ==> set_ok(nfa, #[trigger] sets[d])
    &&& forall|d1: int, d2: int| 0 <= d1 < d2 < sets.len() ==> #[trigger] sets[d1] != #[trigger] sets[d2]
    &&& forall|d: int| 0 <= d < sets.len() ==> accepts_of(nfa, sets[d], (#[trigger] dfa.states@[d]).accepts@)
    &&& forall|d: int| 0 <= d < sets.len() ==> row_ok(nfa, sets, d, (#[trigger] dfa.states@[d]).transitions@)
}

/// The sets of NFA states by their views.
pub open spec fn set_views(sets: Seq<Vec<usize>>) -> Seq<Seq<usize>> {
    sets.map_values(|v: Vec<usize>| v@)
}

proof fn lemma_row_ok_extend(nfa: Nfa, sets: Seq<Seq<usize>>, bigger: Seq<Seq<usize>>, d: int, ts: Seq<DfaTransition>)
    requires
        0 <= d < sets.len(),
        sets.len() <= bigger.len(),
        forall|j: int| 0 <= j < sets.len() ==> #[trigger] bigger[j] == sets[j],
        row_ok(nfa, sets, d, ts),
    ensures
        row_ok(nfa, bigger, d, ts),
{
    assert forall|g: usize| #[trigger] has_transition_on(ts, g) <==> exists|t: usize| moves(nfa, bigger[d], g, t) by {
        assert(bigger[d] == sets[d]);
    }
    assert forall|k: int| 0 <= k < ts.len() implies {
        &&& (#[trigger] ts[k]).target < bigger.len()
        &&& is_closure_of(nfa, move_set(nfa, bigger[d], ts[k].elementary_interval_index), bigger[ts[k].target as int])
    } by {
        assert(bigger[d] == sets[d]);
        assert(bigger[ts[k].target as int] == sets[ts[k].target as int]);
    }
}

proof fn lemma_pair_target_bound(nfa: Nfa, from: Seq<usize>, g: usize, t: usize)
    requires
        nfa.wf(),
        set_ok(nfa, from),
        moves(nfa, from, g, t),
    ensures
        t < nfa.states@.len(),
{
    let p = choose|p: int| 0 <= p < from.len() && #[trigger] crate::nfa::has_group_to(nfa.states@[from[p] as int].transitions@, g, t);
    let ts = nfa.states@[from[p] as int].transitions@;
    let k = choose|k: int| 0 <= k < ts.len() && crate::nfa::transition_group(#[trigger] ts[k]) == Some(g) && ts[k].target == t;
    assert(from[p] < nfa.states@.len());
}

/// The DFA state that stands for the set `c`: an existing one, or a new one
/// without transitions that accepts what the states of `c` accept.
fn intern_set(nfa: &Nfa, sets: &mut Vec<Vec<usize>>, states: &mut Vec<DfaState>, c: Vec<usize>) -> (r: Result<usize, String>)
    requires
        nfa.wf(),
        set_ok(*nfa, c@),
        old(sets)@.len() == old(states)@.len(),
    ensures
        final(sets)@.len() == final(states)@.len(),
        r is Err ==> old(sets)@.len() == usize::MAX && final(sets)@ == old(sets)@ && final(states)@ == old(states)@,
        r matches Ok(j) ==> {
            &&& j < final(sets)@.len()
            &&& final(sets)@[j as int]@ == c@
            &&& old(sets)@.len() <= final(sets)@.len() <= old(sets)@.len() + 1
            &&& forall|d: int| 0 <= d < old(sets)@.len() ==> #[trigger] final(sets)@[d] == old(sets)@[d]
            &&& forall|d: int| 0 <= d < old(states)@.len() ==> #[trigger] final(states)@[d] == old(states)@[d]
            &&& final(sets)@.len() == old(sets)@.len() + 1 ==> {
                &&& j == old(sets)@.len()
                &&& forall|d: int| 0 <= d < old(sets)@.len() ==> (#[trigger] old(sets)@[d])@ != c@
                &&& accepts_of(*nfa, c@, final(states)@[j as int].accepts@)
                &&& final(states)@[j as int].transitions@.len() == 0
            }
        },
{
    match find_set(sets, &c) {
        Some(j) => Ok(j),
        None => {
            if sets.len() == usize::MAX {
                return Err(String::from_str("the DFA has too many states"));
            }
            let acc = accepts_for(nfa, &c);
            let j = sets.len();
            sets.push(c);
            states.push(DfaState { transitions: Vec::new(), accepts: acc });
            Ok(j)
        },
    }
}


/// There are `usize::MAX` distinct strictly increasing sequences of states of
/// the NFA: as many DFA states as can be counted.
pub open spec fn too_many_sets(nfa: Nfa) -> bool {
    exists|sets: Seq<Seq<usize>>| {
        &&& sets.len() == usize::MAX
        &&& forall|d: int| 0 <= d < sets.len() ==> set_ok(nfa, #[trigger] sets[d])
        &&& forall|d1: int, d2: int| 0 <= d1 < d2 < sets.len() ==> #[trigger] sets[d1] != #[trigger] sets[d2]
    }
}

/// The DFA invariants of the subset construction after the first `i` states
/// have their transitions.
pub open spec fn construction_inv(nfa: Nfa, sets: Seq<Vec<usize>>, states: Seq<DfaState>, i: int) -> bool {
    let sv = set_views(sets);
    &&& nfa.wf()
    &&& converted(nfa)
    &&& sets.len() == states.len()
    &&& sets.len() > 0
    &&& 0 <= i <= sets.len()
    &&& is_closure_of(nfa, set![nfa.start_state], sv[0])
    &&& forall|d: int| 0 <= d < sv.len() ==> set_ok(nfa, #[trigger] sv[d])
    &&& forall|d1: int, d2: int| 0 <= d1 < d2 < sv.len() ==> #[trigger] sv[d1] != #[trigger] sv[d2]
    &&& forall|d: int| 0 <= d < sv.len() ==> accepts_of(nfa, sv[d], (#[trigger] states[d]).accepts@)
    &&& forall|d: int| 0 <= d < i ==> row_ok(nfa, sv, d, (#[trigger] states[d]).transitions@)
}

/// Interning a set keeps the invariants, with the same number of states
/// processed.
proof fn lemma_intern_keeps(nfa: Nfa, sets0: Seq<Vec<usize>>, states0: Seq<DfaState>, sets1: Seq<Vec<usize>>,
    states1: Seq<DfaState>, i: int, c: Seq<usize>, j: int)
    requires
        construction_inv(nfa, sets0, states0, i),
        set_ok(nfa, c),
        sets1.len() == states1.len(),
        0 <= j < sets1.len(),
        sets1[j]@ == c,
        sets0.len() <= sets1.len() <= sets0.len() + 1,
        forall|d: int| 0 <= d < sets0.len() ==> #[trigger] sets1[d] == sets0[d],
        forall|d: int| 0 <= d < states0.len() ==> #[trigger] states1[d] == states0[d],
        sets1.len() == sets0.len() + 1 ==> {
            &&& j == sets0.len()
            &&& forall|d: int| 0 <= d < sets0.len() ==> (#[trigger] sets0[d])@ != c
            &&& accepts_of(nfa, c, states1[j].accepts@)
        },
    ensures
        construction_inv(nfa, sets1, states1, i),
        forall|d: int| 0 <= d < sets0.len() ==> #[trigger] set_views(sets1)[d] == set_views(sets0)[d],
{
    let sv0 = set_views(sets0);
    let sv1 = set_views(sets1);
    assert forall|d: int| 0 <= d < sets0.len() implies #[trigger] sv1[d] == sv0[d] by {
        assert(sets1[d] == sets0[d]);
    }
    assert(sv1[0] == sv0[0]);
    assert forall|d: int| 0 <= d < sv1.len() implies set_ok(nfa, #[trigger] sv1[d]) by {
        if d < sets0.len() {
            assert(sv1[d] == sv0[d]);
        } else {
            assert(d == j);
        }
    }
    assert forall|d1: int, d2: int| 0 <= d1 < d2 < sv1.len() implies #[trigger] sv1[d1] != #[trigger] sv1[d2] by {
        if d2 < sets0.len() {
            assert(sv1[d1] == sv0[d1] && sv1[d2] == sv0[d2]);
        } else {
            assert(d2 == j);
            assert(sv1[d1] == sv0[d1]);
            assert(sets0[d1]@ != c);
        }
    }
    assert forall|d: int| 0 <= d < sv1.len() implies accepts_of(nfa, sv1[d], (#[trigger] states1[d]).accepts@) by {
        if d < sets0.len() {
            assert(sv1[d] == sv0[d]);
            assert(states1[d] == states0[d]);
        }
    }
    assert forall|d: int| 0 <= d < i implies row_ok(nfa, sv1, d, (#[trigger] states1[d]).transitions@) by {
        assert(states1[d] == states0[d]);
        lemma_row_ok_extend(nfa, sv0, sv1, d, states0[d].transitions@);
    }
}

impl Dfa {
    /// The DFA of an NFA whose transitions are on disjoint character classes,
    /// by the subset construction, without minimization. Fails only where the
    /// states would be too many to count.
    pub fn try_from_nfa_not_minimized(nfa: &Nfa) -> (r: Result<Dfa, String>)
        requires
            nfa.wf(),
            converted(*nfa),
        ensures
            r is Ok ==> exists|sets: Seq<Seq<usize>>| subset_construction(*nfa, r->Ok_0, sets),
            r is Err ==> too_many_sets(*nfa),
    {
        let start = nfa.epsilon_closure(nfa.start_state);
        proof {
            lemma_closure_of_seeds(*nfa, seq![nfa.start_state], start@);
            let one = seq![nfa.start_state];
            assert forall|y: usize| one.to_set().contains(y) <==> set![nfa.start_state].contains(y) by {
                assert(one[0] == nfa.start_state);
                if one.contains(y) {
                    let k = choose|k: int| 0 <= k < one.len() && one[k] == y;
                    assert(k == 0);
                }
            }
            assert(one.to_set() =~= set![nfa.start_state]);
        }
        let acc0 = accepts_for(nfa, &start);
        let mut sets: Vec<Vec<usize>> = Vec::new();
        let mut states: Vec<DfaState> = Vec::new();
        sets.push(start);
        states.push(DfaState { transitions: Vec::new(), accepts: acc0 });
        proof {
            assert(set_views(sets@)[0] == sets@[0]@);
        }
        let mut i: usize = 0;
        while i < sets.len()
            invariant
                construction_inv(*nfa, sets@, states@, i as int),
            decreases usize::MAX - i,
        {
            let ghost sv_i = set_views(sets@)[i as int];
            assert(sets@[i as int]@ == sv_i);
            assert(set_ok(*nfa, sv_i));
            let pairs = nfa.get_match_transitions(&sets[i]);
            let groups = distinct_groups(&pairs);
            let mut tr: Vec<DfaTransition> = Vec::new();
            let mut q: usize = 0;
            while q < groups.len()
                invariant
                    construction_inv(*nfa, sets@, states@, i as int),
                    i < sets@.len(),
                    set_views(sets@)[i as int] == sv_i,
                    q <= groups@.len(),
                    strictly_sorted(groups@),
                    forall|g: usize| groups@.contains(g) <==> exists|t: usize| #[trigger] pairs@.contains((g, t)),
                    forall|g: usize, t: usize| #[trigger] pairs@.contains((g, t)) <==> moves(*nfa, sv_i, g, t),
                    tr@.len() == q,
                    forall|k: int| 0 <= k < q ==> (#[trigger] tr@[k]).elementary_interval_index == groups@[k],
                    forall|k: int| 0 <= k < q ==> {
                        &&& (#[trigger] tr@[k]).target < sets@.len()
                        &&& is_closure_of(*nfa, move_set(*nfa, sv_i, tr@[k].elementary_interval_index),
                            set_views(sets@)[tr@[k].target as int])
                    },
                decreases groups.len() - q,
            {
                let g = groups[q];
                let targets = group_targets(&pairs, g);
                proof {
                    assert forall|k: int| 0 <= k < targets@.len() implies #[trigger] targets@[k] < nfa.states@.len() by {
                        assert(targets@.contains(targets@[k]));
                        assert(pairs@.contains((g, targets@[k])));
                        lemma_pair_target_bound(*nfa, sv_i, g, targets@[k]);
                    }
                }
                let c = nfa.epsilon_closure_of(&targets);
                proof {
                    lemma_closure_of_seeds(*nfa, targets@, c@);
                    assert(targets@.to_set() =~= move_set(*nfa, sv_i, g)) by {
                        assert forall|t: usize| targets@.to_set().contains(t) <==> move_set(*nfa, sv_i, g).contains(t) by {
                            assert(targets@.contains(t) <==> pairs@.contains((g, t)));
                        }
                    }
                }
                let ghost sets0 = sets@;
                let ghost states0 = states@;
                let ghost cv = c@;
                let j = match intern_set(nfa, &mut sets, &mut states, c) {
                    Ok(j) => j,
                    Err(e) => {
                        proof {
                            let sv = set_views(sets@);
                            assert(construction_inv(*nfa, sets@, states@, i as int));
                            assert(forall|d: int| 0 <= d < sv.len() ==> set_ok(*nfa, #[trigger] sv[d]));
                        }
                        return Err(e);
                    },
                };
                proof {
                    lemma_intern_keeps(*nfa, sets0, states0, sets@, states@, i as int, cv, j as int);
                    assert(set_views(sets@)[j as int] == cv);
                }
                let ghost tr0 = tr@;
                tr.push(DfaTransition::new(g, j));
                proof {
                    assert forall|k: int| 0 <= k < q + 1 implies {
                        &&& (#[trigger] tr@[k]).target < sets@.len()
                        &&& is_closure_of(*nfa, move_set(*nfa, sv_i, tr@[k].elementary_interval_index),
                            set_views(sets@)[tr@[k].target as int])
                    } by {
                        if k < q {
                            assert(tr@[k] == tr0[k]);
                            assert(set_views(sets@)[tr@[k].target as int] == set_views(sets0)[tr0[k].target as int]);
                        }
                    }
                }
                q = q + 1;
            }
            let ghost sets_now = sets@;
            let ghost states_before = states@;
            proof {
                let sv = set_views(sets@);
                assert(transitions_sorted(tr@)) by {
                    assert forall|a: int, b: int| 0 <= a < b < tr@.len() implies
                        (#[trigger] tr@[a]).elementary_interval_index < (#[trigger] tr@[b]).elementary_interval_index by {
                        assert(groups@[a] < groups@[b]);
                    }
                }
                assert forall|g: usize| #[trigger] has_transition_on(tr@, g) <==> exists|t: usize| moves(*nfa, sv[i as int], g, t) by {
                    if has_transition_on(tr@, g) {
                        let k = choose|k: int| 0 <= k < tr@.len() && (#[trigger] tr@[k]).elementary_interval_index == g;
                        assert(groups@[k] == g);
                        assert(groups@.contains(g));
                        let t = choose|t: usize| #[trigger] pairs@.contains((g, t));
                        assert(moves(*nfa, sv_i, g, t));
                    }
                    if exists|t: usize| moves(*nfa, sv[i as int], g, t) {
                        let t = choose|t: usize| moves(*nfa, sv[i as int], g, t);
                        assert(pairs@.contains((g, t)));
                        assert(groups@.contains(g));
                        let k = choose|k: int| 0 <= k < groups@.len() && groups@[k] == g;
                        assert(tr@[k].elementary_interval_index == g);
                    }
                }
                assert(row_ok(*nfa, sv, i as int, tr@));
            }
            states[i].transitions = tr;
            proof {
                let sv = set_views(sets@);
                assert forall|d: int| 0 <= d < sv.len() implies accepts_of(*nfa, sv[d], (#[trigger] states@[d]).accepts@) by {
                    if d != i {
                        assert(states@[d] == states_before[d]);
                    }
                }
                assert forall|d: int| 0 <= d < i + 1 implies row_ok(*nfa, sv, d, (#[trigger] states@[d]).transitions@) by {
                    if d != i {
                        assert(states@[d] == states_before[d]);
                    }
                }
            }
            i = i + 1;
        }
        let dfa = Dfa { states };
        proof {
            let sv = set_views(sets@);
            assert(subset_construction(*nfa, dfa, sv));
            assert(exists|sets: Seq<Seq<usize>>| subset_construction(*nfa, dfa, sets));
        }
        let ghost d = dfa;
        let r: Result<Dfa, String> = Ok(dfa);
        assert(r->Ok_0 == d);
        assert(exists|sets: Seq<Seq<usize>>| subset_construction(*nfa, d, sets));
        assert(r is Ok ==> exists|sets: Seq<Seq<usize>>| subset_construction(*nfa, r->Ok_0, sets));
        r
    }
}


/// The subset construction gives a DFA whose states exist and whose
/// transitions lead to states.
pub proof fn lemma_construction_dfa_ok(nfa: Nfa, dfa: Dfa, sets: Seq<Seq<usize>>)
    requires
        subset_construction(nfa, dfa, sets),
    ensures
        crate::minimizer::dfa_ok(dfa),
{
    assert forall|s: int, k: int| 0 <= s < dfa.states@.len() && 0 <= k < dfa.states@[s].transitions@.len()
        implies (#[trigger] dfa.states@[s].transitions@[k]).target < dfa.states@.len() by {
        assert(row_ok(nfa, sets, s, dfa.states@[s].transitions@));
    }
}

impl Dfa {
    /// The minimal DFA of an NFA whose transitions are on disjoint character
    /// classes: the subset construction, then minimization. Fails only where
    /// the states would be too many to count.
    pub fn try_from_nfa(nfa: &Nfa) -> (r: Result<Dfa, String>)
        requires
            nfa.wf(),
            converted(*nfa),
        ensures
            r is Ok ==> exists|d: Dfa, sets: Seq<Seq<usize>>, cls: Seq<usize>|
                subset_construction(*nfa, d, sets) && crate::minimizer::quotient(d, r->Ok_0, cls),
            r is Err ==> too_many_sets(*nfa),
    {
        let dfa = match Self::try_from_nfa_not_minimized(nfa) {
            Ok(d) => d,
            Err(e) => {
                return Err(e);
            },
        };
        let ghost d0 = dfa;
        proof {
            let sets = choose|sets: Seq<Seq<usize>>| subset_construction(*nfa, d0, sets);
            lemma_construction_dfa_ok(*nfa, d0, sets);
        }
        let min = crate::minimizer::Minimizer::minimize(dfa);
        proof {
            let sets = choose|sets: Seq<Seq<usize>>| subset_construction(*nfa, d0, sets);
            let cls = choose|cls: Seq<usize>| crate::minimizer::quotient(d0, min, cls);
            assert(subset_construction(*nfa, d0, sets) && crate::minimizer::quotient(d0, min, cls));
        }
        let ghost m = min;
        let r: Result<Dfa, String> = Ok(min);
        assert(r->Ok_0 == m);
        r
    }
}

/// Every transition of the NFA on a disjoint character class is on a group
/// below `n`.
pub open spec fn nfa_groups_below(nfa: Nfa, n: nat) -> bool {
    forall|i: int, k: int| 0 <= i < nfa.states@.len() && 0 <= k < nfa.states@[i].transitions@.len()
        ==> match transition_group(#[trigger] nfa.states@[i].transitions@[k]) {
            Some(g) => g < n,
            None => true,
        }
}

/// Every transition of the DFA is on a character class below `n`.
pub open spec fn dfa_groups_below(dfa: Dfa, n: nat) -> bool {
    forall|s: int, k: int| 0 <= s < dfa.states@.len() && 0 <= k < dfa.states@[s].transitions@.len()
        ==> (#[trigger] dfa.states@[s].transitions@[k]).elementary_interval_index < n
}

/// Every state of the DFA has at most one transition per character class.
pub open spec fn rows_sorted(dfa: Dfa) -> bool {
    forall|s: int| 0 <= s < dfa.states@.len() ==> transitions_sorted((#[trigger] dfa.states@[s]).transitions@)
}

/// After the split into disjoint character classes, every transition is on a
/// group of the classes.
pub proof fn lemma_converted_groups_below(before: Nfa, after: Nfa, cc: crate::character_classes::CharacterClasses)
    requires
        after.states@.len() == before.states@.len(),
        forall|i: int| 0 <= i < after.states@.len() ==>
            split_transitions(cc, before.states@[i].transitions@, (#[trigger] after.states@[i]).transitions@),
    ensures
        nfa_groups_below(after, cc.intervals@.len()),
{
    assert forall|i: int, k: int| 0 <= i < after.states@.len() && 0 <= k < after.states@[i].transitions@.len()
        implies match transition_group(#[trigger] after.states@[i].transitions@[k]) {
            Some(g) => g < cc.intervals@.len(),
            None => true,
        } by {
        assert(split_transitions(cc, before.states@[i].transitions@, after.states@[i].transitions@));
        assert(crate::nfa::image_of(cc, before.states@[i].transitions@, after.states@[i].transitions@[k]));
    }
}

/// The minimal DFA of the subset construction of an NFA whose groups are below
/// `n`: its transitions lead to its states, are on classes below `n`, and no
/// state has two transitions on one class.
pub proof fn lemma_minimal_dfa_bounds(nfa: Nfa, d: Dfa, sets: Seq<Seq<usize>>, min: Dfa, cls: Seq<usize>, n: nat)
    requires
        nfa.wf(),
        nfa_groups_below(nfa, n),
        subset_construction(nfa, d, sets),
        crate::minimizer::quotient(d, min, cls),
    ensures
        crate::minimizer::dfa_ok(min),
        dfa_groups_below(min, n),
        rows_sorted(min),
{
    assert forall|s: int, k: int| 0 <= s < d.states@.len() && 0 <= k < d.states@[s].transitions@.len()
        implies (#[trigger] d.states@[s].transitions@[k]).elementary_interval_index < n
            && d.states@[s].transitions@[k].target < d.states@.len() by {
        let ts = d.states@[s].transitions@;
        let g = ts[k].elementary_interval_index;
        assert(row_ok(nfa, sets, s, ts));
        assert(has_transition_on(ts, g));
        let t = choose|t: usize| moves(nfa, sets[s], g, t);
        let p = choose|p: int| 0 <= p < sets[s].len() && #[trigger] has_group_to(nfa.states@[sets[s][p] as int].transitions@, g, t);
        assert(set_ok(nfa, sets[s]));
        let q = sets[s][p] as int;
        let kk = choose|kk: int| 0 <= kk < nfa.states@[q].transitions@.len()
            && transition_group(#[trigger] nfa.states@[q].transitions@[kk]) == Some(g)
            && nfa.states@[q].transitions@[kk].target == t;
        assert(match transition_group(nfa.states@[q].transitions@[kk]) { Some(g) => g < n, None => true });
    }
    let tmd = crate::minimizer::transition_map(d);
    let tmm = crate::minimizer::transition_map(min);
    assert(cls[0] < min.states@.len());
    assert forall|r: int, k: int| 0 <= r < min.states@.len() && 0 <= k < min.states@[r].transitions@.len()
        implies (#[trigger] min.states@[r].transitions@[k]).elementary_interval_index < n
            && min.states@[r].transitions@[k].target < min.states@.len() by {
        assert(crate::minimizer::represented(d, min, cls, r));
        let s = choose|s: int| 0 <= s < cls.len() && #[trigger] cls[s] == r && {
            let a = min.states@[r].accepts@;
            let b = d.states@[s].accepts@;
            &&& a.len() == b.len()
            &&& forall|k: int| 0 <= k < a.len() ==> pattern_same(#[trigger] a[k], b[k])
        };
        assert(tmm[cls[s] as int] == tmd[s].map_values(|t: (usize, usize)| (t.0, cls[t.1 as int])));
        assert(tmm[r][k] == (min.states@[r].transitions@[k].elementary_interval_index, min.states@[r].transitions@[k].target));
        assert(tmd[s][k] == (d.states@[s].transitions@[k].elementary_interval_index, d.states@[s].transitions@[k].target));
        assert(d.states@[s].transitions@[k].target < d.states@.len());
    }
    assert forall|r: int| 0 <= r < min.states@.len() implies transitions_sorted((#[trigger] min.states@[r]).transitions@) by {
        assert(crate::minimizer::represented(d, min, cls, r));
        let s = choose|s: int| 0 <= s < cls.len() && #[trigger] cls[s] == r && {
            let a = min.states@[r].accepts@;
            let b = d.states@[s].accepts@;
            &&& a.len() == b.len()
            &&& forall|k: int| 0 <= k < a.len() ==> pattern_same(#[trigger] a[k], b[k])
        };
        assert(tmm[cls[s] as int] == tmd[s].map_values(|t: (usize, usize)| (t.0, cls[t.1 as int])));
        assert(row_ok(nfa, sets, s, d.states@[s].transitions@));
        let ts = min.states@[r].transitions@;
        assert forall|i: int, j: int| 0 <= i < j < ts.len() implies
            (#[trigger] ts[i]).elementary_interval_index < (#[trigger] ts[j]).elementary_interval_index by {
            assert(tmm[r][i].0 == ts[i].elementary_interval_index);
            assert(tmm[r][j].0 == ts[j].elementary_interval_index);
            assert(tmd[s][i].0 == d.states@[s].transitions@[i].elementary_interval_index);
            assert(tmd[s][j].0 == d.states@[s].transitions@[j].elementary_interval_index);
        }
    }
}

} // verus!
