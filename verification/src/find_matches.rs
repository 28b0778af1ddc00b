//! Finding token matches: the leftmost match with the longest eligible
//! length, taken by its first eligible accept.
use vstd::prelude::*;
use crate::class_table::CharClassTable;
use crate::dfa_sim::{dfa_accepting, dfa_next, dfa_run, dfa_wf, lemma_run_in_range, lemma_run_stuck};
use crate::dynamic_state::{slots_view, spec_is_eligible, spec_project, SpecValue};
use crate::match_types::{Match, MatchEnd, MatchStart, Position, Positions};
use crate::scanner_impl::{accept_before, accept_wf, accepts_ordered, mode_after, mode_dfa_wf, modes_wf, ScannerImpl};
use crate::text::{byte_len, byte_offset, byte_offsets, lemma_byte_offset_monotonic, lemma_byte_offset_step, str_to_chars, sub_chars};
use crate::types::{AcceptData, Dfa, DynamicOp, DynamicValue, Lookahead, ScannerMode};

verus! {

/// The DFA, started at `at`, accepts after reading `k >= 1` characters.
pub open spec fn nonempty_match_at(d: Dfa, t: Seq<(char, char, usize)>, s: Seq<char>, at: int, k: int) -> bool {
    &&& 1 <= k
    &&& at + k <= s.len()
    &&& dfa_run(d, t, s, at, k as nat) matches Some(q)
    &&& dfa_accepting(d, q)
}

/// Whether the lookahead condition holds for the text from `at`.
pub open spec fn lookahead_holds(la: Lookahead, t: Seq<(char, char, usize)>, s: Seq<char>, at: int) -> bool {
    match la {
        Lookahead::Absent => true,
        Lookahead::Positive(d) => exists|k: int| nonempty_match_at(d, t, s, at, k),
        Lookahead::Negative(d) => !exists|k: int| nonempty_match_at(d, t, s, at, k),
    }
}

/// Whether the accept may end a match of `s[p..e]`: its lookahead holds after
/// the match and its runtime-state pattern (if any) is eligible.
pub open spec fn accept_eligible(
    a: AcceptData,
    t: Seq<(char, char, usize)>,
    s: Seq<char>,
    p: int,
    e: int,
    slots: Seq<Option<SpecValue>>,
) -> bool {
    &&& lookahead_holds(a.lookahead, t, s, e)
    &&& match a.dynamic {
        None => true,
        Some(dp) => spec_is_eligible(dp, t, slots, s.subrange(p, e)),
    }
}

/// The accepts of state `q`.
pub open spec fn accepts_of(d: Dfa, q: int) -> Seq<AcceptData> {
    d.states@[q].accept_data@
}

/// `j` is the first eligible accept of the list.
pub open spec fn first_eligible_is(
    accepts: Seq<AcceptData>,
    t: Seq<(char, char, usize)>,
    s: Seq<char>,
    p: int,
    e: int,
    slots: Seq<Option<SpecValue>>,
    j: int,
) -> bool {
    &&& 0 <= j < accepts.len()
    &&& accept_eligible(accepts[j], t, s, p, e, slots)
    &&& forall|i: int| 0 <= i < j ==> !accept_eligible(#[trigger] accepts[i], t, s, p, e, slots)
}

/// A match of `k` characters from `p` can end here: the DFA reaches a state
/// with an eligible accept.
pub open spec fn candidate(
    d: Dfa,
    t: Seq<(char, char, usize)>,
    s: Seq<char>,
    p: int,
    slots: Seq<Option<SpecValue>>,
    k: int,
) -> bool {
    &&& 1 <= k
    &&& p + k <= s.len()
    &&& dfa_run(d, t, s, p, k as nat) matches Some(q)
    &&& 0 <= q < d.states@.len()
    &&& exists|j: int| 0 <= j < accepts_of(d, q).len() && accept_eligible(accepts_of(d, q)[j], t, s, p, p + k, slots)
}

/// `k` is the longest candidate length from `p`.
pub open spec fn longest_is(
    d: Dfa,
    t: Seq<(char, char, usize)>,
    s: Seq<char>,
    p: int,
    slots: Seq<Option<SpecValue>>,
    k: int,
) -> bool {
    &&& candidate(d, t, s, p, slots, k)
    &&& forall|k2: int| #[trigger] candidate(d, t, s, p, slots, k2) ==> k2 <= k
}

/// Some match can start at `p`.
pub open spec fn has_candidate(d: Dfa, t: Seq<(char, char, usize)>, s: Seq<char>, p: int, slots: Seq<Option<SpecValue>>) -> bool {
    exists|k: int| candidate(d, t, s, p, slots, k)
}

/// `p` is the first position from `p0` at which a match starts.
pub open spec fn first_start_is(
    d: Dfa,
    t: Seq<(char, char, usize)>,
    s: Seq<char>,
    p0: int,
    slots: Seq<Option<SpecValue>>,
    p: int,
) -> bool {
    &&& p0 <= p < s.len()
    &&& has_candidate(d, t, s, p, slots)
    &&& forall|p2: int| p0 <= p2 < p ==> !#[trigger] has_candidate(d, t, s, p2, slots)
}

/// The match the scanner finds from `p0`: its start, its length, the DFA state
/// it ends in and the index of the accept that it takes.
pub open spec fn next_match_spec(
    d: Dfa,
    t: Seq<(char, char, usize)>,
    s: Seq<char>,
    p0: int,
    slots: Seq<Option<SpecValue>>,
) -> Option<(int, int, int, int)> {
    if exists|p: int| first_start_is(d, t, s, p0, slots, p) {
        let p = choose|p: int| first_start_is(d, t, s, p0, slots, p);
        let k = choose|k: int| longest_is(d, t, s, p, slots, k);
        let q = dfa_run(d, t, s, p, k as nat)->0;
        let j = choose|j: int| #[trigger] first_eligible_is(accepts_of(d, q), t, s, p, p + k, slots, j);
        Some((p, k, q, j))
    } else {
        None
    }
}

/// The runtime-state slots after taking accept `a` for the matched text: a
/// capture stores its projected value in its slot; everything else leaves the
/// slots unchanged.
pub open spec fn slots_after(
    a: AcceptData,
    t: Seq<(char, char, usize)>,
    matched: Seq<char>,
    slots: Seq<Option<SpecValue>>,
) -> Seq<Option<SpecValue>> {
    match a.dynamic {
        Some(dp) => match dp.op {
            DynamicOp::CaptureCount { state_index, .. } => match spec_project(dp, t, matched) {
                Some(v) => if (state_index as int) < slots.len() {
                    slots.update(state_index as int, Some(v))
                } else {
                    slots
                },
                None => slots,
            },
            DynamicOp::CaptureStr { state_index } => match spec_project(dp, t, matched) {
                Some(v) => if (state_index as int) < slots.len() {
                    slots.update(state_index as int, Some(v))
                } else {
                    slots
                },
                None => slots,
            },
            _ => slots,
        },
        None => slots,
    }
}

/// Whether the DFA accepts some non-empty text starting at `at`.
fn dfa_has_nonempty_match(d: &Dfa, s: &[char], at: usize, table: &CharClassTable) -> (b: bool)
    requires
        dfa_wf(*d),
        table.wf(),
        at <= s@.len(),
    ensures
        b == exists|k: int| nonempty_match_at(*d, table.intervals@, s@, at as int, k),
{
    let ghost t = table.intervals@;
    let n = s.len();
    let mut state: usize = 0;
    let mut i: usize = at;
    while i < n
        invariant_except_break
            at <= i <= n,
            n == s@.len(),
            dfa_wf(*d),
            table.wf(),
            t == table.intervals@,
            (state as int) < d.states@.len(),
            dfa_run(*d, t, s@, at as int, (i - at) as nat) == Some(state as int),
            forall|k: int| 1 <= k <= i - at ==> !nonempty_match_at(*d, t, s@, at as int, k),
        ensures
            forall|k: int| 1 <= k ==> !nonempty_match_at(*d, t, s@, at as int, k),
        decreases n - i,
    {
        match dfa_next(d, state, table, s[i]) {
            Some(next) => {
                state = next;
                i = i + 1;
                if d.states[state].accept_data.len() > 0 {
                    assert(nonempty_match_at(*d, t, s@, at as int, (i - at) as int));
                    return true;
                }
            },
            None => {
                assert forall|k: int| 1 <= k implies !nonempty_match_at(*d, t, s@, at as int, k) by {
                    if k > i - at {
                        lemma_run_stuck(*d, t, s@, at as int, (i - at + 1) as nat, k as nat);
                    }
                }
                break;
            },
        }
    }
    false
}

/// Whether the lookahead condition holds for the text from `at`.
fn lookahead_satisfied(la: &Lookahead, s: &[char], at: usize, table: &CharClassTable) -> (b: bool)
    requires
        match *la {
            Lookahead::Absent => true,
            Lookahead::Positive(d) => dfa_wf(d),
            Lookahead::Negative(d) => dfa_wf(d),
        },
        table.wf(),
        at <= s@.len(),
    ensures
        b == lookahead_holds(*la, table.intervals@, s@, at as int),
{
    match la {
        Lookahead::Absent => true,
        Lookahead::Positive(d) => dfa_has_nonempty_match(d, s, at, table),
        Lookahead::Negative(d) => !dfa_has_nonempty_match(d, s, at, table),
    }
}

/// Whether the accept may end a match of `s[p..e]`.
fn accept_is_eligible(
    a: &AcceptData,
    s: &[char],
    p: usize,
    e: usize,
    slots: &[Option<DynamicValue>],
    table: &CharClassTable,
) -> (b: bool)
    requires
        accept_wf(*a),
        table.wf(),
        p <= e <= s@.len(),
    ensures
        b == accept_eligible(*a, table.intervals@, s@, p as int, e as int, slots_view(slots@)),
{
    if !lookahead_satisfied(&a.lookahead, s, e, table) {
        return false;
    }
    match &a.dynamic {
        None => true,
        Some(dp) => {
            let matched = sub_chars(s, p, e);
            dp.is_eligible(slots, &matched, table)
        },
    }
}

/// The index of the first eligible accept of the list, if any.
fn first_eligible(
    accepts: &Vec<AcceptData>,
    s: &[char],
    p: usize,
    e: usize,
    slots: &[Option<DynamicValue>],
    table: &CharClassTable,
) -> (r: Option<usize>)
    requires
        forall|j: int| 0 <= j < accepts@.len() ==> accept_wf(#[trigger] accepts@[j]),
        table.wf(),
        p <= e <= s@.len(),
    ensures
        match r {
            Some(j) => first_eligible_is(accepts@, table.intervals@, s@, p as int, e as int, slots_view(slots@), j as int),
            None => forall|j: int| 0 <= j < accepts@.len() ==> !accept_eligible(
                #[trigger] accepts@[j],
                table.intervals@,
                s@,
                p as int,
                e as int,
                slots_view(slots@),
            ),
        },
{
    let mut j: usize = 0;
    while j < accepts.len()
        invariant
            j <= accepts@.len(),
            forall|i: int| 0 <= i < accepts@.len() ==> accept_wf(#[trigger] accepts@[i]),
            table.wf(),
            p <= e <= s@.len(),
            forall|i: int| 0 <= i < j ==> !accept_eligible(
                #[trigger] accepts@[i],
                table.intervals@,
                s@,
                p as int,
                e as int,
                slots_view(slots@),
            ),
        decreases accepts.len() - j,
    {
        if accept_is_eligible(&accepts[j], s, p, e, slots, table) {
            return Some(j);
        }
        j = j + 1;
    }
    None
}

/// Simulates the DFA from `p` and returns the longest eligible match: its
/// length, the state it ends in and the index of the accept taken there.
pub fn find_next(
    d: &Dfa,
    s: &[char],
    p: usize,
    slots: &[Option<DynamicValue>],
    table: &CharClassTable,
) -> (r: Option<(usize, usize, usize)>)
    requires
        mode_dfa_wf(*d),
        accepts_ordered(*d),
        table.wf(),
        p <= s@.len(),
    ensures
        match r {
            Some((k, q, j)) => {
                &&& forall|i: int| 0 <= i < accepts_of(*d, q as int).len() && accept_eligible(#[trigger] accepts_of(*d, q as int)[i],
                    table.intervals@, s@, p as int, p + k, slots_view(slots@))
                    ==> accept_before(accepts_of(*d, q as int)[j as int], accepts_of(*d, q as int)[i])
                &&& longest_is(*d, table.intervals@, s@, p as int, slots_view(slots@), k as int)
                &&& dfa_run(*d, table.intervals@, s@, p as int, k as nat) == Some(q as int)
                &&& first_eligible_is(
                    accepts_of(*d, q as int),
                    table.intervals@,
                    s@,
                    p as int,
                    p + k,
                    slots_view(slots@),
                    j as int,
                )
            },
            None => !has_candidate(*d, table.intervals@, s@, p as int, slots_view(slots@)),
        },
{
    let ghost t = table.intervals@;
    let ghost sv = slots_view(slots@);
    let n = s.len();
    let mut state: usize = 0;
    let mut i: usize = p;
    let mut best: Option<(usize, usize, usize)> = None;
    while i < n
        invariant_except_break
            p <= i <= n,
            n == s@.len(),
            mode_dfa_wf(*d),
            table.wf(),
            t == table.intervals@,
            sv == slots_view(slots@),
            (state as int) < d.states@.len(),
            dfa_run(*d, t, s@, p as int, (i - p) as nat) == Some(state as int),
            forall|k: int| #[trigger] candidate(*d, t, s@, p as int, sv, k) && k <= i - p ==> (best matches Some((bk, _, _)) && k <= bk),
            best matches Some((bk, bq, bj)) ==> {
                &&& candidate(*d, t, s@, p as int, sv, bk as int)
                &&& bk <= i - p
                &&& dfa_run(*d, t, s@, p as int, bk as nat) == Some(bq as int)
                &&& first_eligible_is(accepts_of(*d, bq as int), t, s@, p as int, p + bk, sv, bj as int)
            },
        ensures
            forall|k: int| #[trigger] candidate(*d, t, s@, p as int, sv, k) ==> (best matches Some((bk, _, _)) && k <= bk),
            best matches Some((bk, bq, bj)) ==> {
                &&& candidate(*d, t, s@, p as int, sv, bk as int)
                &&& dfa_run(*d, t, s@, p as int, bk as nat) == Some(bq as int)
                &&& first_eligible_is(accepts_of(*d, bq as int), t, s@, p as int, p + bk, sv, bj as int)
            },
        decreases n - i,
    {
        match dfa_next(d, state, table, s[i]) {
            Some(next) => {
                state = next;
                i = i + 1;
                let accepts = &d.states[state].accept_data;
                assert forall|j: int| 0 <= j < accepts@.len() implies accept_wf(#[trigger] accepts@[j]) by {
                    assert(accept_wf(d.states@[state as int].accept_data@[j]));
                }
                match first_eligible(accepts, s, p, i, slots, table) {
                    Some(j) => {
                        best = Some((i - p, state, j));
                        assert(dfa_run(*d, t, s@, p as int, (i - p) as nat) == Some(state as int));
                        assert(accept_eligible(accepts_of(*d, state as int)[j as int], t, s@, p as int, p + (i - p), sv));
                        assert(candidate(*d, t, s@, p as int, sv, (i - p) as int));
                    },
                    None => {
                        assert forall|k: int| #[trigger] candidate(*d, t, s@, p as int, sv, k) && k <= i - p
                            implies (best matches Some((bk, _, _)) && k <= bk) by {
                            if k == i - p {
                                let j = choose|j: int| 0 <= j < accepts_of(*d, state as int).len()
                                    && accept_eligible(accepts_of(*d, state as int)[j], t, s@, p as int, p + k, sv);
                                assert(!accept_eligible(accepts@[j], t, s@, p as int, i as int, sv));
                            }
                        }
                    },
                }
            },
            None => {
                assert forall|k: int| #[trigger] candidate(*d, t, s@, p as int, sv, k)
                    implies (best matches Some((bk, _, _)) && k <= bk) by {
                    if k > i - p {
                        lemma_run_stuck(*d, t, s@, p as int, (i - p + 1) as nat, k as nat);
                    }
                }
                break;
            },
        }
    }
    match best {
        Some((k, q, j)) => {
            proof {
                let acc = accepts_of(*d, q as int);
                assert forall|i: int| 0 <= i < acc.len() && accept_eligible(#[trigger] acc[i], t, s@, p as int, p + k, sv)
                    implies accept_before(acc[j as int], acc[i]) by {
                    if i > j {
                        assert(accept_before(d.states@[q as int].accept_data@[j as int], d.states@[q as int].accept_data@[i]));
                    }
                }
            }
            Some((k, q, j))
        },
        None => {
            assert(!has_candidate(*d, t, s@, p as int, sv));
            None
        },
    }
}

} // verus!

verus! {

/// The line and column (both from 1) of the character with index `i`.
pub open spec fn char_position(s: Seq<char>, i: nat) -> (nat, nat)
    decreases i,
{
    if i == 0 {
        (1, 1)
    } else {
        let (l, c) = char_position(s, (i - 1) as nat);
        if s[i - 1] == '\n' {
            (l + 1, 1)
        } else {
            (l, c + 1)
        }
    }
}

proof fn lemma_char_position_bound(s: Seq<char>, i: nat)
    ensures
        1 <= char_position(s, i).0 <= i + 1,
        1 <= char_position(s, i).1 <= i + 1,
    decreases i,
{
    if i > 0 {
        lemma_char_position_bound(s, (i - 1) as nat);
    }
}

/// The first character index whose byte offset is at least `offset`, or the
/// length of `s` if there is none.
pub open spec fn start_index_is(s: Seq<char>, offset: usize, i: int) -> bool {
    &&& 0 <= i <= s.len()
    &&& (i == s.len() || byte_offset(s, i) >= offset)
    &&& forall|k: int| 0 <= k < i ==> byte_offset(s, k) < offset
}

/// A scan of an input with a scanner: the input, the byte offset of each
/// character, the current character index, the scanner and its character
/// classification.
pub struct FindMatches {
    pub input: Vec<char>,
    pub offsets: Vec<usize>,
    pub pos: usize,
    pub scanner_impl: ScannerImpl,
    pub match_function: CharClassTable,
}

impl FindMatches {
    pub open spec fn wf(&self) -> bool {
        &&& self.scanner_impl.wf()
        &&& self.match_function.wf()
        &&& byte_len(self.input@) <= isize::MAX
        &&& self.offsets@.len() == self.input@.len() + 1
        &&& forall|i: int| 0 <= i <= self.input@.len() ==> #[trigger] self.offsets@[i] == byte_offset(self.input@, i)
        &&& self.pos <= self.input@.len()
    }

    /// The DFA of the current mode.
    pub open spec fn current_dfa(&self) -> Dfa {
        self.scanner_impl.modes@[self.scanner_impl.current_mode as int].dfa
    }

    /// Creates a scan of `input` from the first character at or after byte
    /// `offset`.
    pub fn new(input: &str, offset: usize, scanner_impl: ScannerImpl, match_function: CharClassTable) -> (f: Self)
        requires
            scanner_impl.wf(),
            match_function.wf(),
        ensures
            f.wf(),
            f.input@ == input@,
            start_index_is(input@, offset, f.pos as int),
            f.scanner_impl == scanner_impl,
            f.match_function == match_function,
    {
        let chars = str_to_chars(input);
        let offsets = byte_offsets(&chars);
        let mut pos: usize = 0;
        while pos < chars.len() && offsets[pos] < offset
            invariant
                pos <= chars@.len(),
                offsets@.len() == chars@.len() + 1,
                forall|i: int| 0 <= i <= chars@.len() ==> #[trigger] offsets@[i] == byte_offset(chars@, i),
                forall|k: int| 0 <= k < pos ==> byte_offset(chars@, k) < offset,
            decreases chars.len() - pos,
        {
            assert(offsets@[pos as int] == byte_offset(chars@, pos as int));
            pos = pos + 1;
        }
        assert(pos == chars@.len() || offsets@[pos as int] == byte_offset(chars@, pos as int));
        FindMatches { input: chars, offsets, pos, scanner_impl, match_function }
    }

    /// Returns the name of the current mode.
    pub fn current_mode_name(&self) -> (name: String)
        ensures
            name@ == (if (self.scanner_impl.current_mode as int) < self.scanner_impl.modes@.len() {
                self.scanner_impl.modes@[self.scanner_impl.current_mode as int].name@
            } else {
                "Unknown"@
            }),
    {
        self.scanner_impl.current_mode_name()
    }

    /// Returns the name of the mode with the given index, or "Unknown".
    pub fn mode_name(&self, index: usize) -> (r: Option<String>)
        ensures
            r matches Some(name) && name@ == (if (index as int) < self.scanner_impl.modes@.len() {
                self.scanner_impl.modes@[index as int].name@
            } else {
                "Unknown"@
            }),
    {
        self.scanner_impl.mode_name(index)
    }

    /// Returns the index of the current mode.
    pub fn current_mode_index(&self) -> (i: usize)
        ensures
            i == self.scanner_impl.current_mode,
    {
        self.scanner_impl.current_mode_index()
    }

    /// Finds the next match, returning it with its start character index and its
    /// length in characters.
    fn next_match_at(&mut self) -> (r: Option<(Match, usize, usize)>)
        requires
            old(self).wf(),
        ensures
            final(self).wf(),
            final(self).input == old(self).input,
            final(self).offsets == old(self).offsets,
            final(self).match_function == old(self).match_function,
            final(self).scanner_impl.modes == old(self).scanner_impl.modes,
            final(self).scanner_impl.dynamic_state@.len() == old(self).scanner_impl.dynamic_state@.len(),
            r matches Some((_, rp, rk)) ==> old(self).pos <= rp && 1 <= rk && rp + rk <= old(self).input@.len(),
            match next_match_spec(
                old(self).current_dfa(),
                old(self).match_function.intervals@,
                old(self).input@,
                old(self).pos as int,
                slots_view(old(self).scanner_impl.dynamic_state@),
            ) {
                None => {
                    &&& r is None
                    &&& final(self).pos == old(self).input@.len()
                    &&& final(self).scanner_impl == old(self).scanner_impl
                },
                Some((p, k, q, j)) => {
                    let a = accepts_of(old(self).current_dfa(), q)[j];
                    &&& r matches Some((m, rp, rk))
                    &&& rp == p && rk == k
                    &&& m.span.start == byte_offset(old(self).input@, p)
                    &&& m.span.end == byte_offset(old(self).input@, p + k)
                    &&& m.token_type == a.token_type
                    &&& m.positions is None
                    &&& final(self).pos == p + k
                    &&& (final(self).scanner_impl.current_mode, final(self).scanner_impl.mode_stack@)
                        == mode_after(
                        old(self).scanner_impl.modes@,
                        old(self).scanner_impl.current_mode,
                        old(self).scanner_impl.mode_stack@,
                        a.token_type,
                    )
                    &&& slots_view(final(self).scanner_impl.dynamic_state@) == slots_after(
                        a,
                        old(self).match_function.intervals@,
                        old(self).input@.subrange(p, p + k),
                        slots_view(old(self).scanner_impl.dynamic_state@),
                    )
                },
            },
    {
        let ghost d = old(self).current_dfa();
        let ghost t = old(self).match_function.intervals@;
        let ghost s = old(self).input@;
        let ghost p0 = old(self).pos as int;
        let ghost sv = slots_view(old(self).scanner_impl.dynamic_state@);
        let n = self.input.len();
        let mode = self.scanner_impl.current_mode;
        proof {
            assert(mode_dfa_wf(self.scanner_impl.modes@[mode as int].dfa));
        }
        loop
            invariant
                self.wf(),
                self.input == old(self).input,
                self.offsets == old(self).offsets,
                self.match_function == old(self).match_function,
                self.scanner_impl == old(self).scanner_impl,
                n == s.len(),
                mode == self.scanner_impl.current_mode,
                d == self.current_dfa(),
                t == self.match_function.intervals@,
                s == self.input@,
                sv == slots_view(self.scanner_impl.dynamic_state@),
                mode_dfa_wf(d),
                d == old(self).current_dfa(),
                t == old(self).match_function.intervals@,
                s == old(self).input@,
                p0 == old(self).pos as int,
                sv == slots_view(old(self).scanner_impl.dynamic_state@),
                p0 <= self.pos,
                forall|p2: int| p0 <= p2 < self.pos ==> !#[trigger] has_candidate(d, t, s, p2, sv),
            decreases n - self.pos,
        {
            let found = find_next(
                &self.scanner_impl.modes[mode].dfa,
                &self.input,
                self.pos,
                &self.scanner_impl.dynamic_state,
                &self.match_function,
            );
            match found {
                Some((k, q, j)) => {
                    let p = self.pos;
                    proof {
                        lemma_run_in_range(d, t, s, p as int, k as nat);
                        assert(first_start_is(d, t, s, p0, sv, p as int));
                        let pc = choose|pc: int| first_start_is(d, t, s, p0, sv, pc);
                        assert(pc == p) by {
                            if pc < p {
                                assert(!has_candidate(d, t, s, pc, sv));
                            } else if pc > p {
                                assert(has_candidate(d, t, s, p as int, sv));
                            }
                        }
                        let kc = choose|kc: int| longest_is(d, t, s, p as int, sv, kc);
                        assert(longest_is(d, t, s, p as int, sv, kc));
                        assert(kc == k);
                        let jc = choose|jc: int| #[trigger] first_eligible_is(accepts_of(d, q as int), t, s, p as int, p + k, sv, jc);
                        assert(first_eligible_is(accepts_of(d, q as int), t, s, p as int, p + k, sv, jc));
                        assert(jc == j) by {
                            if jc < j {
                                assert(!accept_eligible(accepts_of(d, q as int)[jc], t, s, p as int, p + k, sv));
                            } else if jc > j {
                                assert(!accept_eligible(accepts_of(d, q as int)[j as int], t, s, p as int, p + k, sv));
                            }
                        }
                        lemma_byte_offset_monotonic(s, p as int, p + k);
                        assert(next_match_spec(d, t, s, p0, sv) == Some((p as int, k as int, q as int, j as int)));
                    }
                    let end = p + k;
                    let token_type = self.scanner_impl.modes[mode].dfa.states[q].accept_data[j].token_type;
                    let m = Match::new(self.offsets[p]..self.offsets[end], token_type);
                    self.commit_capture(mode, q, j, p, end);
                    self.pos = end;
                    self.scanner_impl.handle_mode_transition(token_type);
                    return Some((m, p, k));
                },
                None => {
                    if self.pos >= n {
                        proof {
                            assert forall|pc: int| !first_start_is(d, t, s, p0, sv, pc) by {
                                if p0 <= pc < s.len() {
                                    assert(!has_candidate(d, t, s, pc, sv));
                                }
                            }
                        }
                        assert(next_match_spec(d, t, s, p0, sv) is None);
                        return None;
                    }
                    self.pos = self.pos + 1;
                },
            }
        }
    }

    /// Stores the value that accept `j` of state `q` of the current mode
    /// captures from `input[p..e]`, if it is a capture.
    fn commit_capture(&mut self, mode: usize, q: usize, j: usize, p: usize, e: usize)
        requires
            old(self).wf(),
            mode == old(self).scanner_impl.current_mode,
            (q as int) < old(self).current_dfa().states@.len(),
            (j as int) < accepts_of(old(self).current_dfa(), q as int).len(),
            p <= e <= old(self).input@.len(),
        ensures
            final(self).input == old(self).input,
            final(self).offsets == old(self).offsets,
            final(self).pos == old(self).pos,
            final(self).match_function == old(self).match_function,
            final(self).scanner_impl.modes == old(self).scanner_impl.modes,
            final(self).scanner_impl.current_mode == old(self).scanner_impl.current_mode,
            final(self).scanner_impl.mode_stack == old(self).scanner_impl.mode_stack,
            final(self).scanner_impl.dynamic_state@.len() == old(self).scanner_impl.dynamic_state@.len(),
            final(self).wf(),
            slots_view(final(self).scanner_impl.dynamic_state@) == slots_after(
                accepts_of(old(self).current_dfa(), q as int)[j as int],
                old(self).match_function.intervals@,
                old(self).input@.subrange(p as int, e as int),
                slots_view(old(self).scanner_impl.dynamic_state@),
            ),
    {
        let ghost sv = slots_view(self.scanner_impl.dynamic_state@);
        let ghost a = accepts_of(self.current_dfa(), q as int)[j as int];
        proof {
            assert(mode_dfa_wf(self.current_dfa()));
            assert(accept_wf(a));
        }
        let update: Option<(usize, DynamicValue)> = {
            let accept = &self.scanner_impl.modes[mode].dfa.states[q].accept_data[j];
            match &accept.dynamic {
                Some(dp) => match &dp.op {
                    DynamicOp::CaptureCount { state_index, .. } | DynamicOp::CaptureStr { state_index } => {
                        let matched = sub_chars(&self.input, p, e);
                        match dp.project(&matched, &self.match_function) {
                            Some(v) => Some((*state_index, v)),
                            None => None,
                        }
                    },
                    _ => None,
                },
                None => None,
            }
        };
        match update {
            Some((index, v)) => {
                if index < self.scanner_impl.dynamic_state.len() {
                    self.scanner_impl.dynamic_state.set(index, Some(v));
                    proof {
                        assert(slots_view(self.scanner_impl.dynamic_state@) =~= sv.update(index as int, Some(crate::dynamic_state::value_view(v))));
                    }
                }
            },
            None => {},
        }
    }

    /// Returns the next match, or `None` at the end of the input.
    ///
    /// The match starts at the first position from the current one where the
    /// current mode's DFA reaches an accepting state with an eligible accept
    /// (its lookahead holds and its runtime-state check passes); it is the
    /// longest such match there, and it takes the first eligible accept of its
    /// final state. Afterwards a capture stores its value, and the token's mode
    /// transition is applied.
    pub fn next_match(&mut self) -> (r: Option<Match>)
        requires
            old(self).wf(),
        ensures
            final(self).wf(),
            final(self).input == old(self).input,
            final(self).scanner_impl.modes == old(self).scanner_impl.modes,
            r is Some ==> old(self).pos < final(self).pos,
            match next_match_spec(
                old(self).current_dfa(),
                old(self).match_function.intervals@,
                old(self).input@,
                old(self).pos as int,
                slots_view(old(self).scanner_impl.dynamic_state@),
            ) {
                None => {
                    &&& r is None
                    &&& final(self).pos == old(self).input@.len()
                    &&& final(self).scanner_impl == old(self).scanner_impl
                },
                Some((p, k, q, j)) => {
                    let a = accepts_of(old(self).current_dfa(), q)[j];
                    &&& r matches Some(m)
                    &&& m.span.start == byte_offset(old(self).input@, p)
                    &&& m.span.end == byte_offset(old(self).input@, p + k)
                    &&& m.token_type == a.token_type
                    &&& m.positions is None
                    &&& final(self).pos == p + k
                    &&& (final(self).scanner_impl.current_mode, final(self).scanner_impl.mode_stack@)
                        == mode_after(
                        old(self).scanner_impl.modes@,
                        old(self).scanner_impl.current_mode,
                        old(self).scanner_impl.mode_stack@,
                        a.token_type,
                    )
                    &&& slots_view(final(self).scanner_impl.dynamic_state@) == slots_after(
                        a,
                        old(self).match_function.intervals@,
                        old(self).input@.subrange(p, p + k),
                        slots_view(old(self).scanner_impl.dynamic_state@),
                    )
                },
            },
    {
        match self.next_match_at() {
            Some((m, _, _)) => Some(m),
            None => None,
        }
    }
}


impl FindMatches {
    /// Returns all remaining matches, in order; they do not overlap, and each
    /// covers at least one character.
    pub fn collect_matches(&mut self) -> (ms: Vec<Match>)
        requires
            old(self).wf(),
        ensures
            final(self).wf(),
            final(self).input@ == old(self).input@,
            final(self).scanner_impl.dynamic_state@.len() == old(self).scanner_impl.dynamic_state@.len(),
            final(self).pos == final(self).input@.len(),
            forall|i: int| 0 <= i < ms@.len() ==> (#[trigger] ms@[i]).span.start < ms@[i].span.end,
            forall|i: int, j: int| 0 <= i < j < ms@.len() ==> (#[trigger] ms@[i]).span.end <= (#[trigger] ms@[j]).span.start,
            forall|i: int| 0 <= i < ms@.len() ==> byte_offset(old(self).input@, old(self).pos as int) <= (#[trigger] ms@[i]).span.start
                && ms@[i].span.end <= byte_len(old(self).input@),
            matches_are(ms@, old(self).input@, old(self).remaining()),
            final(self).scanner_impl.modes@ == old(self).scanner_impl.modes@,
            (final(self).scanner_impl.current_mode, final(self).scanner_impl.mode_stack@,
                slots_view(final(self).scanner_impl.dynamic_state@)) == old(self).end_state(),
    {
        let ghost s = self.input@;
        let ghost p0 = self.pos as int;
        let ghost init = self.remaining();
        let ghost end = self.end_state();
        let ghost mut done: Seq<(int, int, usize)> = Seq::empty();
        let mut ms: Vec<Match> = Vec::new();
        proof {
            lemma_byte_offset_monotonic(s, p0, s.len() as int);
        }
        loop
            invariant
                self.wf(),
                self.input@ == s,
                self.scanner_impl.dynamic_state@.len() == old(self).scanner_impl.dynamic_state@.len(),
                0 <= p0 <= self.pos,
                forall|i: int| 0 <= i < ms@.len() ==> (#[trigger] ms@[i]).span.start < ms@[i].span.end,
                forall|i: int, j: int| 0 <= i < j < ms@.len() ==> (#[trigger] ms@[i]).span.end <= (#[trigger] ms@[j]).span.start,
                forall|i: int| 0 <= i < ms@.len() ==> byte_offset(s, p0) <= (#[trigger] ms@[i]).span.start
                    && ms@[i].span.end <= byte_offset(s, self.pos as int),
                init == done + self.remaining(),
                matches_are(ms@, s, done),
                end == self.end_state(),
                self.scanner_impl.modes@ == old(self).scanner_impl.modes@,
            ensures
                self.wf(),
                self.input@ == s,
                self.scanner_impl.dynamic_state@.len() == old(self).scanner_impl.dynamic_state@.len(),
                self.pos == s.len(),
                end == (self.scanner_impl.current_mode, self.scanner_impl.mode_stack@, slots_view(self.scanner_impl.dynamic_state@)),
                self.scanner_impl.modes@ == old(self).scanner_impl.modes@,
                forall|i: int| 0 <= i < ms@.len() ==> (#[trigger] ms@[i]).span.start < ms@[i].span.end,
                forall|i: int, j: int| 0 <= i < j < ms@.len() ==> (#[trigger] ms@[i]).span.end <= (#[trigger] ms@[j]).span.start,
                forall|i: int| 0 <= i < ms@.len() ==> byte_offset(s, p0) <= (#[trigger] ms@[i]).span.start
                    && ms@[i].span.end <= byte_offset(s, self.pos as int),
                init == done,
                matches_are(ms@, s, done),
            decreases s.len() - self.pos,
        {
            let ghost before = self.pos as int;
            let ghost st0 = *self;
            proof {
                assert(0 <= p0);
                assert(p0 <= before);
                assert(before <= s.len());
                lemma_byte_offset_monotonic(s, p0, before);
            }
            match self.next_match_at() {
                Some((m, p, k)) => {
                    proof {
                        lemma_byte_offset_monotonic(s, before, p as int);
                        lemma_byte_offset_step(s, p as int);
                        lemma_byte_offset_monotonic(s, p + 1, p + k);
                        assert(m.span.start == byte_offset(s, p as int));
                        assert(m.span.end == byte_offset(s, p + k));
                        assert(self.pos == p + k);
                        let item = (p as int, (p + k) as int, m.token_type);
                        assert(st0.remaining() == seq![item] + self.remaining());
                        assert(init == done.push(item) + self.remaining()) by {
                            assert(done + (seq![item] + self.remaining()) =~= done.push(item) + self.remaining());
                        }
                        done = done.push(item);
                    }
                    ms.push(m);
                },
                None => {
                    proof {
                        lemma_byte_offset_monotonic(s, before, s.len() as int);
                        assert(st0.remaining() == Seq::<(int, int, usize)>::empty());
                        assert(init =~= done);
                    }
                    break;
                },
            }
        }
        proof {
            assert(s.take(s.len() as int) =~= s);
        }
        ms
    }
}

/// A scan that also reports the line and column positions of each match.
pub struct FindMatchesWithPosition {
    pub inner: FindMatches,
    pub line: usize,
    pub column: usize,
}

/// The position of the character with index `i`, and one column further.
fn advance_position(s: &Vec<char>, from: usize, to: usize, line: usize, column: usize) -> (r: (usize, usize))
    requires
        from <= to <= s@.len(),
        s@.len() < usize::MAX,
        (line as nat, column as nat) == char_position(s@, from as nat),
    ensures
        (r.0 as nat, r.1 as nat) == char_position(s@, to as nat),
{
    let mut i = from;
    let mut l = line;
    let mut c = column;
    while i < to
        invariant
            from <= i <= to <= s@.len(),
            s@.len() < usize::MAX,
            (l as nat, c as nat) == char_position(s@, i as nat),
        decreases to - i,
    {
        proof {
            lemma_char_position_bound(s@, i as nat);
        }
        if s[i] == '\n' {
            l = l + 1;
            c = 1;
        } else {
            c = c + 1;
        }
        i = i + 1;
    }
    (l, c)
}

impl FindMatchesWithPosition {
    pub open spec fn wf(&self) -> bool {
        &&& self.inner.wf()
        &&& (self.line as nat, self.column as nat) == char_position(self.inner.input@, self.inner.pos as nat)
    }

    /// Creates a scan of `input` from the first character at or after byte
    /// `offset`, reporting positions.
    pub fn new(input: &str, offset: usize, scanner_impl: ScannerImpl, match_function: CharClassTable) -> (f: Self)
        requires
            scanner_impl.wf(),
            match_function.wf(),
        ensures
            f.wf(),
            f.inner.input@ == input@,
            start_index_is(input@, offset, f.inner.pos as int),
            f.inner.scanner_impl == scanner_impl,
            f.inner.match_function.intervals@ == match_function.intervals@,
    {
        let inner = FindMatches::new(input, offset, scanner_impl, match_function);
        proof {
            lemma_input_len(inner.input@);
        }
        let (line, column) = advance_position(&inner.input, 0, inner.pos, 1, 1);
        FindMatchesWithPosition { inner, line, column }
    }

    /// Returns the name of the current mode (always `Some`).
    pub fn current_mode_name(&self) -> (r: Option<String>)
        ensures
            r matches Some(name) && name@ == (if (self.inner.scanner_impl.current_mode as int) < self.inner.scanner_impl.modes@.len() {
                self.inner.scanner_impl.modes@[self.inner.scanner_impl.current_mode as int].name@
            } else {
                "Unknown"@
            }),
    {
        let index = self.inner.scanner_impl.current_mode_index();
        self.inner.scanner_impl.mode_name(index)
    }

    /// Returns the name of the mode with the given index, or "Unknown".
    pub fn mode_name(&self, index: usize) -> (r: Option<String>)
        ensures
            r matches Some(name) && name@ == (if (index as int) < self.inner.scanner_impl.modes@.len() {
                self.inner.scanner_impl.modes@[index as int].name@
            } else {
                "Unknown"@
            }),
    {
        self.inner.scanner_impl.mode_name(index)
    }

    /// Returns the index of the current mode.
    pub fn current_mode(&self) -> (i: usize)
        ensures
            i == self.inner.scanner_impl.current_mode,
    {
        self.inner.scanner_impl.current_mode_index()
    }

    /// Returns the next match as `FindMatches::next_match` does, with the line
    /// and column of its first character and, as end, the line of its last
    /// character and the column just after it.
    pub fn next_match(&mut self) -> (r: Option<Match>)
        requires
            old(self).wf(),
        ensures
            final(self).wf(),
            final(self).inner.input == old(self).inner.input,
            final(self).inner.scanner_impl.dynamic_state@.len() == old(self).inner.scanner_impl.dynamic_state@.len(),
            final(self).inner.scanner_impl.modes == old(self).inner.scanner_impl.modes,
            final(self).inner.match_function == old(self).inner.match_function,
            r is Some ==> old(self).inner.pos < final(self).inner.pos,
            match next_match_spec(
                old(self).inner.current_dfa(),
                old(self).inner.match_function.intervals@,
                old(self).inner.input@,
                old(self).inner.pos as int,
                slots_view(old(self).inner.scanner_impl.dynamic_state@),
            ) {
                None => {
                    &&& r is None
                    &&& final(self).inner.pos == old(self).inner.input@.len()
                    &&& final(self).inner.scanner_impl == old(self).inner.scanner_impl
                },
                Some((p, k, q, j)) => {
                    let a = accepts_of(old(self).inner.current_dfa(), q)[j];
                    let sp = char_position(old(self).inner.input@, p as nat);
                    let ep = char_position(old(self).inner.input@, (p + k - 1) as nat);
                    &&& r matches Some(m)
                    &&& m.span.start == byte_offset(old(self).inner.input@, p)
                    &&& m.span.end == byte_offset(old(self).inner.input@, p + k)
                    &&& m.token_type == a.token_type
                    &&& m.positions matches Some(ps)
                    &&& ps.start.line == sp.0 && ps.start.column == sp.1
                    &&& ps.end.line == ep.0 && ps.end.column == ep.1 + 1
                    &&& final(self).inner.pos == p + k
                    &&& (final(self).inner.scanner_impl.current_mode, final(self).inner.scanner_impl.mode_stack@)
                        == mode_after(
                        old(self).inner.scanner_impl.modes@,
                        old(self).inner.scanner_impl.current_mode,
                        old(self).inner.scanner_impl.mode_stack@,
                        a.token_type,
                    )
                    &&& slots_view(final(self).inner.scanner_impl.dynamic_state@) == slots_after(
                        a,
                        old(self).inner.match_function.intervals@,
                        old(self).inner.input@.subrange(p, p + k),
                        slots_view(old(self).inner.scanner_impl.dynamic_state@),
                    )
                },
            },
    {
        let from = self.inner.pos;
        proof {
            lemma_input_len(self.inner.input@);
        }
        match self.inner.next_match_at() {
            Some((m, p, k)) => {
                let (sl, sc) = advance_position(&self.inner.input, from, p, self.line, self.column);
                let (el, ec) = advance_position(&self.inner.input, p, p + k - 1, sl, sc);
                let (nl, nc) = advance_position(&self.inner.input, p + k - 1, p + k, el, ec);
                proof {
                    lemma_char_position_bound(self.inner.input@, (p + k - 1) as nat);
                }
                self.line = nl;
                self.column = nc;
                let positions = Positions::new(Position::new(sl, sc), Position::new(el, ec + 1));
                Some(m.with_positions(Some(positions)))
            },
            None => {
                let (nl, nc) = advance_position(&self.inner.input, from, self.inner.pos, self.line, self.column);
                self.line = nl;
                self.column = nc;
                None
            },
        }
    }

    /// Returns all remaining matches with positions, in order.
    pub fn collect_matches(&mut self) -> (ms: Vec<Match>)
        requires
            old(self).wf(),
        ensures
            final(self).wf(),
            final(self).inner.scanner_impl.dynamic_state@.len() == old(self).inner.scanner_impl.dynamic_state@.len(),
            final(self).inner.pos == final(self).inner.input@.len(),
            forall|i: int| 0 <= i < ms@.len() ==> (#[trigger] ms@[i]).positions is Some,
            matches_are(ms@, old(self).inner.input@, old(self).inner.remaining()),
            positioned(ms@, old(self).inner.input@, old(self).inner.remaining()),
            final(self).inner.scanner_impl.modes@ == old(self).inner.scanner_impl.modes@,
            (final(self).inner.scanner_impl.current_mode, final(self).inner.scanner_impl.mode_stack@,
                slots_view(final(self).inner.scanner_impl.dynamic_state@)) == old(self).inner.end_state(),
    {
        let ghost s = self.inner.input@;
        let ghost init = self.inner.remaining();
        let ghost end = self.inner.end_state();
        let ghost mut done: Seq<(int, int, usize)> = Seq::empty();
        let mut ms: Vec<Match> = Vec::new();
        loop
            invariant
                self.wf(),
                self.inner.input@ == s,
                self.inner.scanner_impl.dynamic_state@.len() == old(self).inner.scanner_impl.dynamic_state@.len(),
                forall|i: int| 0 <= i < ms@.len() ==> (#[trigger] ms@[i]).positions is Some,
                init == done + self.inner.remaining(),
                matches_are(ms@, s, done),
                positioned(ms@, s, done),
                end == self.inner.end_state(),
                self.inner.scanner_impl.modes@ == old(self).inner.scanner_impl.modes@,
            ensures
                self.wf(),
                self.inner.scanner_impl.dynamic_state@.len() == old(self).inner.scanner_impl.dynamic_state@.len(),
                self.inner.pos == self.inner.input@.len(),
                end == (self.inner.scanner_impl.current_mode, self.inner.scanner_impl.mode_stack@,
                    slots_view(self.inner.scanner_impl.dynamic_state@)),
                self.inner.scanner_impl.modes@ == old(self).inner.scanner_impl.modes@,
                forall|i: int| 0 <= i < ms@.len() ==> (#[trigger] ms@[i]).positions is Some,
                init == done,
                matches_are(ms@, s, done),
                positioned(ms@, s, done),
            decreases self.inner.input@.len() - self.inner.pos,
        {
            let ghost before = self.inner.pos;
            let ghost st0 = self.inner;
            match self.next_match() {
                Some(m) => {
                    proof {
                        let (p, k, q, j) = next_match_spec(st0.current_dfa(), st0.match_function.intervals@, s,
                            st0.pos as int, slots_view(st0.scanner_impl.dynamic_state@))->Some_0;
                        let item = (p, p + k, m.token_type);
                        assert(st0.remaining() == seq![item] + self.inner.remaining());
                        assert(init == done.push(item) + self.inner.remaining()) by {
                            assert(done + (seq![item] + self.inner.remaining()) =~= done.push(item) + self.inner.remaining());
                        }
                        done = done.push(item);
                    }
                    ms.push(m);
                },
                None => {
                    proof {
                        assert(st0.remaining() == Seq::<(int, int, usize)>::empty());
                        assert(init =~= done);
                    }
                    break;
                },
            }
        }
        ms
    }
}

/// The matches of a scan of `s` from character index `pos` in mode `mode`
/// with mode stack `stack` and runtime-state slots `slots`, as (start, end,
/// token type) with character indices: each the next match of the current
/// mode's DFA, after which the token's mode transition and capture apply.
pub open spec fn scan_matches(
    modes: Seq<ScannerMode>,
    t: Seq<(char, char, usize)>,
    s: Seq<char>,
    pos: int,
    mode: usize,
    stack: Seq<usize>,
    slots: Seq<Option<SpecValue>>,
) -> Seq<(int, int, usize)>
    decreases s.len() - pos,
{
    let d = modes[mode as int].dfa;
    match next_match_spec(d, t, s, pos, slots) {
        Some((p, k, q, j)) => if pos < p + k <= s.len() {
            let a = accepts_of(d, q)[j];
            let next = mode_after(modes, mode, stack, a.token_type);
            seq![(p, p + k, a.token_type)] + scan_matches(
                modes, t, s, p + k, next.0, next.1, slots_after(a, t, s.subrange(p, p + k), slots))
        } else {
            Seq::empty()
        },
        None => Seq::empty(),
    }
}

/// The mode, mode stack and runtime-state slots after the scan that
/// `scan_matches` describes: those after its last match.
pub open spec fn scan_end(
    modes: Seq<ScannerMode>,
    t: Seq<(char, char, usize)>,
    s: Seq<char>,
    pos: int,
    mode: usize,
    stack: Seq<usize>,
    slots: Seq<Option<SpecValue>>,
) -> (usize, Seq<usize>, Seq<Option<SpecValue>>)
    decreases s.len() - pos,
{
    let d = modes[mode as int].dfa;
    match next_match_spec(d, t, s, pos, slots) {
        Some((p, k, q, j)) => if pos < p + k <= s.len() {
            let a = accepts_of(d, q)[j];
            let next = mode_after(modes, mode, stack, a.token_type);
            scan_end(modes, t, s, p + k, next.0, next.1, slots_after(a, t, s.subrange(p, p + k), slots))
        } else {
            (mode, stack, slots)
        },
        None => (mode, stack, slots),
    }
}

/// The scanner state of `si2` is the one a scan of `s` with the scanner `si`
/// and the classification `t`, from the first character at or after byte
/// `offset`, ends in: the same modes, and the mode, mode stack and
/// runtime-state slots after the last match.
pub open spec fn scan_leaves(si: ScannerImpl, t: Seq<(char, char, usize)>, s: Seq<char>, offset: usize, si2: ScannerImpl) -> bool {
    &&& si2.modes@ == si.modes@
    &&& exists|p0: int| #[trigger] start_index_is(s, offset, p0)
        && (si2.current_mode, si2.mode_stack@, slots_view(si2.dynamic_state@))
        == scan_end(si.modes@, t, s, p0, si.current_mode, si.mode_stack@, slots_view(si.dynamic_state@))
}

/// The matches `ms` carry the line and column positions of the matches of
/// `scan` in `s`: where the first character starts, and just after the last.
pub open spec fn positioned(ms: Seq<Match>, s: Seq<char>, scan: Seq<(int, int, usize)>) -> bool {
    &&& ms.len() == scan.len()
    &&& forall|i: int| 0 <= i < ms.len() ==> {
        let sp = char_position(s, scan[i].0 as nat);
        let ep = char_position(s, (scan[i].1 - 1) as nat);
        &&& (#[trigger] ms[i]).positions matches Some(ps)
        &&& ps.start.line == sp.0 && ps.start.column == sp.1
        &&& ps.end.line == ep.0 && ps.end.column == ep.1 + 1
    }
}

/// The matches `ms`, with positions, are those of a scan of `s` with the
/// scanner `si` and the classification `t`, from the first character at or
/// after byte `offset`.
pub open spec fn scans_with_positions_as(si: ScannerImpl, t: Seq<(char, char, usize)>, s: Seq<char>, offset: usize, ms: Seq<Match>) -> bool {
    exists|p0: int| #[trigger] start_index_is(s, offset, p0) && {
        let scan = scan_matches(si.modes@, t, s, p0, si.current_mode, si.mode_stack@, slots_view(si.dynamic_state@));
        matches_are(ms, s, scan) && positioned(ms, s, scan)
    }
}

/// The matches `ms` are those of `scan`: the same token types, spanning the
/// bytes of the same characters of `s`.
pub open spec fn matches_are(ms: Seq<Match>, s: Seq<char>, scan: Seq<(int, int, usize)>) -> bool {
    &&& ms.len() == scan.len()
    &&& forall|i: int| 0 <= i < ms.len() ==> {
        &&& (#[trigger] ms[i]).span.start == byte_offset(s, scan[i].0)
        &&& ms[i].span.end == byte_offset(s, scan[i].1)
        &&& ms[i].token_type == scan[i].2
    }
}

/// The matches `ms` are those of a scan of `s` with the scanner `si` and the
/// character classification `t`, from the first character at or after byte
/// `offset`.
pub open spec fn scans_as(si: ScannerImpl, t: Seq<(char, char, usize)>, s: Seq<char>, offset: usize, ms: Seq<Match>) -> bool {
    exists|p0: int| #[trigger] start_index_is(s, offset, p0) && matches_are(ms, s,
        scan_matches(si.modes@, t, s, p0, si.current_mode, si.mode_stack@, slots_view(si.dynamic_state@)))
}

impl FindMatches {
    /// The scanner state the rest of this scan ends in.
    pub open spec fn end_state(&self) -> (usize, Seq<usize>, Seq<Option<SpecValue>>) {
        scan_end(
            self.scanner_impl.modes@,
            self.match_function.intervals@,
            self.input@,
            self.pos as int,
            self.scanner_impl.current_mode,
            self.scanner_impl.mode_stack@,
            slots_view(self.scanner_impl.dynamic_state@),
        )
    }

    /// The matches that the rest of this scan gives.
    pub open spec fn remaining(&self) -> Seq<(int, int, usize)> {
        scan_matches(
            self.scanner_impl.modes@,
            self.match_function.intervals@,
            self.input@,
            self.pos as int,
            self.scanner_impl.current_mode,
            self.scanner_impl.mode_stack@,
            slots_view(self.scanner_impl.dynamic_state@),
        )
    }
}

/// A scanned input has fewer characters than `usize::MAX`.
proof fn lemma_input_len(s: Seq<char>)
    requires
        byte_len(s) <= isize::MAX,
    ensures
        s.len() < usize::MAX,
    decreases s.len(),
{
    if s.len() > 0 {
        lemma_byte_len_ge_len(s);
    }
}

proof fn lemma_byte_len_ge_len(s: Seq<char>)
    ensures
        byte_len(s) >= s.len(),
    decreases s.len(),
{
    if s.len() > 0 {
        lemma_byte_len_ge_len(s.drop_last());
    }
}


impl ScannerImpl {
    /// Starts a scan of `input` from byte `offset` with this scanner and the
    /// given character classification.
    pub fn find_matches(
        scanner_impl: ScannerImpl,
        input: &str,
        offset: usize,
        match_function: &CharClassTable,
    ) -> (f: FindMatches)
        requires
            scanner_impl.wf(),
            match_function.wf(),
        ensures
            f.wf(),
            f.input@ == input@,
            start_index_is(input@, offset, f.pos as int),
            f.scanner_impl == scanner_impl,
            f.match_function.intervals@ == match_function.intervals@,
    {
        FindMatches::new(input, offset, scanner_impl, match_function.clone_table())
    }

    /// Starts a scan of `input` from byte `offset` that reports positions.
    pub fn find_matches_with_position(
        scanner_impl: ScannerImpl,
        input: &str,
        offset: usize,
        match_function: &CharClassTable,
    ) -> (f: FindMatchesWithPosition)
        requires
            scanner_impl.wf(),
            match_function.wf(),
        ensures
            f.wf(),
            f.inner.input@ == input@,
            start_index_is(input@, offset, f.inner.pos as int),
            f.inner.scanner_impl == scanner_impl,
            f.inner.match_function.intervals@ == match_function.intervals@,
    {
        FindMatchesWithPosition::new(input, offset, scanner_impl, match_function.clone_table())
    }
}

} // verus!
