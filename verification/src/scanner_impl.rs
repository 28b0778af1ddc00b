//! The scanner state: its modes, the current mode, the mode stack and the
//! runtime-state slots.
use vstd::prelude::*;
use vstd::string::StringExecFns;
use crate::class_table::CharClassTable;
use crate::dfa_sim::dfa_wf;
use crate::dynamic_state::{dynamic_pattern_wf, slots_view, value_view, SpecValue};
use crate::types::{AcceptData, Dfa, DynamicGuard, DynamicOp, DynamicValue, Lookahead, ScannerMode, Transition};

verus! {

/// The accept's lookahead and runtime-state DFAs are well formed.
pub open spec fn accept_wf(a: AcceptData) -> bool {
    &&& match a.lookahead {
        Lookahead::Absent => true,
        Lookahead::Positive(d) => dfa_wf(d),
        Lookahead::Negative(d) => dfa_wf(d),
    }
    &&& (a.dynamic matches Some(p) ==> dynamic_pattern_wf(p))
}

/// The DFA of a mode and everything its accepts hold are well formed.
pub open spec fn mode_dfa_wf(d: Dfa) -> bool {
    &&& dfa_wf(d)
    &&& forall|q: int, j: int|
        0 <= q < d.states@.len() && 0 <= j < d.states@[q].accept_data@.len() ==> accept_wf(
            #[trigger] d.states@[q].accept_data@[j],
        )
}

/// How specific an accept's runtime-state check is, for choosing among
/// accepts of the same priority (lower is more specific): an equality check
/// or a string validation 0, a range 1, a less-than check 2, a capture or no
/// check 3.
pub open spec fn specificity(a: AcceptData) -> nat {
    match a.dynamic {
        Some(p) => match p.op {
            DynamicOp::ValidateCount { guard, .. } => match guard {
                DynamicGuard::Equal => 0,
                DynamicGuard::Range { .. } => 1,
                DynamicGuard::LessThan => 2,
            },
            DynamicOp::ValidateStr { .. } => 0,
            _ => 3,
        },
        None => 3,
    }
}

/// Accept `a` is preferred to accept `b` where both end a match of the same
/// length: a lower priority number, or the same priority and a check at
/// least as specific.
pub open spec fn accept_before(a: AcceptData, b: AcceptData) -> bool {
    a.priority < b.priority || (a.priority == b.priority && specificity(a) <= specificity(b))
}

/// The accepts of every state of the DFA are listed in order of preference.
pub open spec fn accepts_ordered(d: Dfa) -> bool {
    forall|q: int, i: int, j: int| 0 <= q < d.states@.len() && 0 <= i < j < d.states@[q].accept_data@.len()
        ==> accept_before(#[trigger] d.states@[q].accept_data@[i], #[trigger] d.states@[q].accept_data@[j])
}

/// There is a mode, every mode is well formed with its accepts in order of
/// preference, and every transition leads to a mode.
pub open spec fn modes_wf(modes: Seq<ScannerMode>) -> bool {
    &&& modes.len() > 0
    &&& forall|i: int| 0 <= i < modes.len() ==> mode_dfa_wf(#[trigger] modes[i].dfa)
    &&& forall|i: int| 0 <= i < modes.len() ==> accepts_ordered(#[trigger] modes[i].dfa)
    &&& forall|i: int, k: int|
        0 <= i < modes.len() && 0 <= k < modes[i].transitions@.len() ==> (
        #[trigger] modes[i].transitions@[k] matches Transition::SetMode(_, m) ==> (m as int) < modes.len())
            && (modes[i].transitions@[k] matches Transition::PushMode(_, m) ==> (m as int) < modes.len())
}

/// The last transition of `ts` triggered by `token_type`.
pub open spec fn last_transition(ts: Seq<Transition>, token_type: usize) -> Option<Transition>
    decreases ts.len(),
{
    if ts.len() == 0 {
        None
    } else if ts.last().spec_token_type() == token_type {
        Some(ts.last())
    } else {
        last_transition(ts.drop_last(), token_type)
    }
}

/// The transition of mode `mode` triggered by `token_type`.
pub open spec fn transition_for(modes: Seq<ScannerMode>, mode: usize, token_type: usize) -> Option<Transition> {
    if (mode as int) < modes.len() {
        last_transition(modes[mode as int].transitions@, token_type)
    } else {
        None
    }
}

/// The current mode and mode stack after a token of type `token_type`.
pub open spec fn mode_after(
    modes: Seq<ScannerMode>,
    mode: usize,
    stack: Seq<usize>,
    token_type: usize,
) -> (usize, Seq<usize>) {
    match transition_for(modes, mode, token_type) {
        None => (mode, stack),
        Some(Transition::SetMode(_, m)) => (m, stack),
        Some(Transition::PushMode(_, m)) => (m, stack.push(mode)),
        Some(Transition::PopMode(_)) => if stack.len() > 0 {
            (stack.last(), stack.drop_last())
        } else {
            (mode, stack)
        },
    }
}

proof fn lemma_last_transition_in(ts: Seq<Transition>, token_type: usize)
    ensures
        last_transition(ts, token_type) matches Some(tr) ==> exists|k: int| 0 <= k < ts.len() && ts[k] == tr,
    decreases ts.len(),
{
    if ts.len() > 0 && ts.last().spec_token_type() != token_type {
        lemma_last_transition_in(ts.drop_last(), token_type);
        if let Some(tr) = last_transition(ts.drop_last(), token_type) {
            let k = choose|k: int| 0 <= k < ts.drop_last().len() && ts.drop_last()[k] == tr;
            assert(ts[k] == tr);
        }
    } else if ts.len() > 0 {
        assert(ts[ts.len() - 1] == ts.last());
    }
}

/// A scanner's state: its modes, the current mode, the stack of pushed modes
/// and the runtime-state slots.
pub struct ScannerImpl {
    pub current_mode: usize,
    pub mode_stack: Vec<usize>,
    pub modes: Vec<ScannerMode>,
    pub dynamic_state: Vec<Option<DynamicValue>>,
}

impl ScannerImpl {
    /// The modes are well formed and the current mode and every pushed mode exist.
    pub open spec fn wf(&self) -> bool {
        &&& modes_wf(self.modes@)
        &&& (self.current_mode as int) < self.modes@.len()
        &&& forall|i: int| 0 <= i < self.mode_stack@.len() ==> (#[trigger] self.mode_stack@[i] as int)
            < self.modes@.len()
    }

    /// Creates a scanner in mode 0 with an empty mode stack and no runtime-state slots.
    pub fn new(modes: Vec<ScannerMode>) -> (s: Self)
        ensures
            s.modes@ == modes@,
            s.current_mode == 0,
            s.mode_stack@.len() == 0,
            s.dynamic_state@.len() == 0,
            modes_wf(modes@) ==> s.wf(),
    {
        Self::new_with_dynamic_state(modes, 0)
    }

    /// Creates a scanner in mode 0 with an empty mode stack and
    /// `dynamic_state_len` empty runtime-state slots.
    pub fn new_with_dynamic_state(modes: Vec<ScannerMode>, dynamic_state_len: usize) -> (s: Self)
        ensures
            s.modes@ == modes@,
            s.current_mode == 0,
            s.mode_stack@.len() == 0,
            s.dynamic_state@.len() == dynamic_state_len,
            forall|i: int| 0 <= i < dynamic_state_len ==> s.dynamic_state@[i] is None,
            modes_wf(modes@) ==> s.wf(),
    {
        let mut dynamic_state: Vec<Option<DynamicValue>> = Vec::new();
        let mut i: usize = 0;
        while i < dynamic_state_len
            invariant
                i <= dynamic_state_len,
                dynamic_state@.len() == i,
                forall|k: int| 0 <= k < i ==> dynamic_state@[k] is None,
            decreases dynamic_state_len - i,
        {
            dynamic_state.push(None);
            i = i + 1;
        }
        ScannerImpl { current_mode: 0, mode_stack: Vec::new(), modes, dynamic_state }
    }

    /// Clears all runtime-state slots; their number, the modes, the current mode
    /// and the mode stack stay as they are.
    pub fn reset_dynamic_state(&mut self)
        ensures
            final(self).dynamic_state@.len() == old(self).dynamic_state@.len(),
            forall|i: int| 0 <= i < final(self).dynamic_state@.len() ==> final(self).dynamic_state@[i] is None,
            final(self).modes == old(self).modes,
            final(self).current_mode == old(self).current_mode,
            final(self).mode_stack == old(self).mode_stack,
    {
        let n = self.dynamic_state.len();
        let mut i: usize = 0;
        while i < n
            invariant
                i <= n,
                n == self.dynamic_state@.len(),
                forall|k: int| 0 <= k < i ==> self.dynamic_state@[k] is None,
                self.modes == old(self).modes,
                self.current_mode == old(self).current_mode,
                self.mode_stack == old(self).mode_stack,
            decreases n - i,
        {
            self.dynamic_state.set(i, None);
            i = i + 1;
        }
    }

    /// Returns the modes of this scanner.
    pub fn modes(&self) -> (m: &Vec<ScannerMode>)
        ensures
            m == &self.modes,
    {
        &self.modes
    }

    /// Returns the transition of the current mode triggered by `token_type`:
    /// the last one listed for that token type.
    pub fn transition_for_token_type(&self, token_type: usize) -> (r: Option<&Transition>)
        ensures
            match r {
                Some(tr) => transition_for(self.modes@, self.current_mode, token_type) == Some(*tr),
                None => transition_for(self.modes@, self.current_mode, token_type) is None,
            },
    {
        if self.current_mode >= self.modes.len() {
            return None;
        }
        let ts = &self.modes[self.current_mode].transitions;
        let ghost all = ts@;
        let mut k = ts.len();
        assert(all.take(k as int) =~= all);
        while k > 0
            invariant
                k <= ts@.len(),
                all == ts@,
                (self.current_mode as int) < self.modes@.len(),
                all == self.modes@[self.current_mode as int].transitions@,
                last_transition(all, token_type) == last_transition(all.take(k as int), token_type),
            decreases k,
        {
            let tr = &ts[k - 1];
            assert(all.take(k as int).last() == all[k - 1]);
            assert(all.take(k as int).drop_last() =~= all.take(k - 1));
            if tr.token_type() == token_type {
                assert(last_transition(all.take(k as int), token_type) == Some(all[k - 1]));
                return Some(tr);
            }
            k = k - 1;
        }
        assert(all.take(0) =~= Seq::<Transition>::empty());
        None
    }

    /// Applies the mode transition triggered by `token_type`: enter, push and
    /// enter, or pop back to the most recently pushed mode (staying put if the
    /// stack is empty). Without a transition for the token type nothing changes.
    pub fn handle_mode_transition(&mut self, token_type: usize)
        ensures
            (final(self).current_mode, final(self).mode_stack@) == mode_after(
                old(self).modes@,
                old(self).current_mode,
                old(self).mode_stack@,
                token_type,
            ),
            final(self).modes == old(self).modes,
            final(self).dynamic_state == old(self).dynamic_state,
            old(self).wf() ==> final(self).wf(),
    {
        let mode_index = self.current_mode;
        let tr = match self.transition_for_token_type(token_type) {
            Some(tr) => tr.duplicate(),
            None => { return; },
        };
        proof {
            lemma_last_transition_in(self.modes@[mode_index as int].transitions@, token_type);
        }
        match tr {
            Transition::SetMode(_, m) => {
                self.current_mode = m;
            },
            Transition::PushMode(_, m) => {
                self.mode_stack.push(mode_index);
                self.current_mode = m;
            },
            Transition::PopMode(_) => {
                match self.mode_stack.pop() {
                    Some(previous) => {
                        self.current_mode = previous;
                    },
                    None => {},
                }
            },
        }
    }

    /// Returns the index of the current mode.
    pub fn current_mode_index(&self) -> (i: usize)
        ensures
            i == self.current_mode,
    {
        self.current_mode
    }

    /// Returns the name of the mode with the given index, or "Unknown" if there
    /// is no such mode; the result is always `Some`.
    pub fn mode_name(&self, index: usize) -> (r: Option<String>)
        ensures
            r matches Some(name) && name@ == (if (index as int) < self.modes@.len() {
                self.modes@[index as int].name@
            } else {
                "Unknown"@
            }),
    {
        if index < self.modes.len() {
            Some(self.modes[index].name.clone())
        } else {
            Some(String::from_str("Unknown"))
        }
    }

    /// Returns the name of the current mode, or "Unknown".
    pub fn current_mode_name(&self) -> (name: String)
        ensures
            name@ == (if (self.current_mode as int) < self.modes@.len() {
                self.modes@[self.current_mode as int].name@
            } else {
                "Unknown"@
            }),
    {
        match self.mode_name(self.current_mode_index()) {
            Some(name) => name,
            None => String::from_str("Unknown"),
        }
    }
}

} // verus!
