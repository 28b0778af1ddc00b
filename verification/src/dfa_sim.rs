//! Running a DFA over text: the states it reaches and where it accepts.
use vstd::prelude::*;
use crate::class_table::{class_of, intervals_wf, CharClassTable};
use crate::types::{Dfa, DfaState};

verus! {

/// The DFA has a start state and all its transitions lead to existing states.
pub open spec fn dfa_wf(d: Dfa) -> bool {
    &&& d.states@.len() > 0
    &&& forall|q: int, k: int|
        #![trigger d.states@[q].transitions@[k]]
        0 <= q < d.states@.len() && 0 <= k < d.states@[q].transitions@.len()
            && d.states@[q].transitions@[k] is Some ==> (d.states@[q].transitions@[k]->0.to as int)
            < d.states@.len()
}

/// The state reached from state `q` on a character of class `cls`, if any.
pub open spec fn dfa_step(d: Dfa, q: int, cls: Option<usize>) -> Option<int> {
    match cls {
        None => None,
        Some(k) => if 0 <= q < d.states@.len() && (k as int) < d.states@[q].transitions@.len() {
            match d.states@[q].transitions@[k as int] {
                Some(t) => Some(t.to as int),
                None => None,
            }
        } else {
            None
        },
    }
}

/// The state reached after reading the `k` characters of `s` from `start`, or
/// `None` if the DFA gets stuck or the text ends before.
pub open spec fn dfa_run(
    d: Dfa,
    t: Seq<(char, char, usize)>,
    s: Seq<char>,
    start: int,
    k: nat,
) -> Option<int>
    decreases k,
{
    if k == 0 {
        Some(0)
    } else {
        match dfa_run(d, t, s, start, (k - 1) as nat) {
            Some(q) => if 0 <= start + k - 1 < s.len() {
                dfa_step(d, q, class_of(t, s[start + k - 1]))
            } else {
                None
            },
            None => None,
        }
    }
}

/// Whether state `q` accepts some token.
pub open spec fn dfa_accepting(d: Dfa, q: int) -> bool {
    0 <= q < d.states@.len() && d.states@[q].accept_data@.len() > 0
}

/// Whether the DFA, started at the beginning of `s`, is in an accepting
/// state after reading `k` characters.
pub open spec fn ends_at(d: Dfa, t: Seq<(char, char, usize)>, s: Seq<char>, k: int) -> bool {
    0 <= k <= s.len() && match dfa_run(d, t, s, 0, k as nat) {
        Some(q) => dfa_accepting(d, q),
        None => false,
    }
}

/// Whether the DFA accepts exactly the whole of `s`.
pub open spec fn matches_exact(d: Dfa, t: Seq<(char, char, usize)>, s: Seq<char>) -> bool {
    ends_at(d, t, s, s.len() as int)
}

/// Once stuck, a run stays stuck.
pub proof fn lemma_run_stuck(
    d: Dfa,
    t: Seq<(char, char, usize)>,
    s: Seq<char>,
    start: int,
    k: nat,
    m: nat,
)
    requires
        k <= m,
        dfa_run(d, t, s, start, k) is None,
    ensures
        dfa_run(d, t, s, start, m) is None,
    decreases m - k,
{
    if k < m {
        lemma_run_stuck(d, t, s, start, k, (m - 1) as nat);
    }
}

/// The states of a run are states of a well-formed DFA.
pub proof fn lemma_run_in_range(
    d: Dfa,
    t: Seq<(char, char, usize)>,
    s: Seq<char>,
    start: int,
    k: nat,
)
    requires
        dfa_wf(d),
    ensures
        dfa_run(d, t, s, start, k) matches Some(q) ==> 0 <= q < d.states@.len(),
    decreases k,
{
    if k > 0 {
        lemma_run_in_range(d, t, s, start, (k - 1) as nat);
        match dfa_run(d, t, s, start, (k - 1) as nat) {
            Some(q) => if 0 <= start + k - 1 < s.len() {
                match class_of(t, s[start + k - 1]) {
                    Some(c) => if (c as int) < d.states@[q].transitions@.len() {
                        let _ = d.states@[q].transitions@[c as int];
                    },
                    None => {},
                }
            },
            None => {},
        }
    }
}

/// A run on a sub-text starting at `start` is the run on the text with the same offset.
pub proof fn lemma_run_shift(
    d: Dfa,
    t: Seq<(char, char, usize)>,
    s: Seq<char>,
    start: int,
    k: nat,
)
    requires
        0 <= start <= s.len(),
    ensures
        dfa_run(d, t, s.subrange(start, s.len() as int), 0, k) == dfa_run(d, t, s, start, k),
    decreases k,
{
    if k > 0 {
        lemma_run_shift(d, t, s, start, (k - 1) as nat);
    }
}

/// Takes one step of the DFA from state `q` on character `c`.
pub fn dfa_next(d: &Dfa, q: usize, table: &CharClassTable, c: char) -> (r: Option<usize>)
    requires
        dfa_wf(*d),
        q < d.states@.len(),
        table.wf(),
    ensures
        r matches Some(n) ==> (n as int) < d.states@.len(),
        (match r {
            Some(n) => Some(n as int),
            None => None,
        }) == dfa_step(*d, q as int, class_of(table.intervals@, c)),
{
    match table.match_function(c) {
        None => None,
        Some(k) => {
            let state: &DfaState = &d.states[q];
            if k < state.transitions.len() {
                match &state.transitions[k] {
                    Some(tr) => Some(tr.to),
                    None => None,
                }
            } else {
                None
            }
        },
    }
}

/// The numbers of characters after which the DFA, started at the beginning of
/// `text`, is in an accepting state, in increasing order.
pub fn accepted_end_positions(d: &Dfa, text: &[char], table: &CharClassTable) -> (ends: Vec<usize>)
    requires
        dfa_wf(*d),
        table.wf(),
    ensures
        forall|i: int, j: int| 0 <= i < j < ends@.len() ==> ends@[i] < ends@[j],
        forall|i: int| 0 <= i < ends@.len() ==> ends_at(*d, table.intervals@, text@, #[trigger] ends@[i] as int),
        forall|k: int| ends_at(*d, table.intervals@, text@, k) ==> ends@.contains(k as usize),
{
    let ghost t = table.intervals@;
    let mut state: usize = 0;
    let mut ends: Vec<usize> = Vec::new();
    if d.states[0].accept_data.len() > 0 {
        ends.push(0);
        assert(ends@[0] == 0);
    }
    assert(dfa_run(*d, t, text@, 0, 0) == Some(0int));
    let mut i: usize = 0;
    while i < text.len()
        invariant_except_break
            i <= text@.len(),
            dfa_wf(*d),
            table.wf(),
            t == table.intervals@,
            (state as int) < d.states@.len(),
            dfa_run(*d, t, text@, 0, i as nat) == Some(state as int),
            forall|a: int, b: int| 0 <= a < b < ends@.len() ==> ends@[a] < ends@[b],
            forall|a: int| 0 <= a < ends@.len() ==> ends@[a] <= i,
            forall|a: int| 0 <= a < ends@.len() ==> ends_at(*d, t, text@, #[trigger] ends@[a] as int),
            forall|k: int| 0 <= k <= i && ends_at(*d, t, text@, k) ==> ends@.contains(k as usize),
        ensures
            forall|a: int, b: int| 0 <= a < b < ends@.len() ==> ends@[a] < ends@[b],
            forall|a: int| 0 <= a < ends@.len() ==> ends_at(*d, t, text@, #[trigger] ends@[a] as int),
            forall|k: int| ends_at(*d, t, text@, k) ==> ends@.contains(k as usize),
        decreases text.len() - i,
    {
        match dfa_next(d, state, table, text[i]) {
            Some(next) => {
                state = next;
                let ghost old_ends = ends@;
                if d.states[state].accept_data.len() > 0 {
                    ends.push(i + 1);
                    assert(ends@[ends@.len() - 1] == i + 1);
                    assert forall|k: int| 0 <= k <= i + 1 && ends_at(*d, t, text@, k) implies ends@.contains(k as usize) by {
                        if k <= i {
                            assert(old_ends.contains(k as usize));
                            let w = choose|w: int| 0 <= w < old_ends.len() && old_ends[w] == k as usize;
                            assert(ends@[w] == k as usize);
                        } else {
                            assert(ends@[ends@.len() - 1] == k as usize);
                        }
                    }
                }
                i = i + 1;
            },
            None => {
                assert forall|k: int| ends_at(*d, t, text@, k) implies ends@.contains(k as usize) by {
                    if k > i {
                        lemma_run_stuck(*d, t, text@, 0, (i + 1) as nat, k as nat);
                    }
                }
                break;
            },
        }
    }
    ends
}

/// Whether the DFA accepts exactly the whole of `text`.
pub fn dfa_matches_exact(d: &Dfa, text: &[char], table: &CharClassTable) -> (b: bool)
    requires
        dfa_wf(*d),
        table.wf(),
    ensures
        b == matches_exact(*d, table.intervals@, text@),
{
    let ends = accepted_end_positions(d, text, table);
    let n = text.len();
    let mut j: usize = 0;
    while j < ends.len()
        invariant
            j <= ends@.len(),
            n == text@.len(),
            forall|a: int| 0 <= a < j ==> ends@[a] != n,
            forall|a: int| 0 <= a < ends@.len() ==> ends_at(*d, table.intervals@, text@, #[trigger] ends@[a] as int),
        decreases ends.len() - j,
    {
        if ends[j] == n {
            assert(ends_at(*d, table.intervals@, text@, ends@[j as int] as int));
            return true;
        }
        j = j + 1;
    }
    proof {
        if matches_exact(*d, table.intervals@, text@) {
            assert(ends@.contains(n));
            let w = choose|w: int| 0 <= w < ends@.len() && ends@[w] == n;
            assert(ends@[w] != n);
        }
    }
    false
}

} // verus!
