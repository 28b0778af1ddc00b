//! Runtime state: projecting a count or a string out of a matched text and
//! checking it against the values that earlier captures stored.
use vstd::prelude::*;
use crate::class_table::CharClassTable;
use crate::dfa_sim::{accepted_end_positions, dfa_matches_exact, dfa_wf, ends_at, matches_exact};
use crate::text::{chars_to_string, starts_with_at, str_to_chars, sub_chars};
use crate::types::{Dfa, DynamicExpr, DynamicGuard, DynamicOp, DynamicPattern, DynamicValue};

verus! {

/// The value of an expression over the stored count `v`; `None` when an
/// addition overflows or a subtraction would go below zero.
pub open spec fn expr_value(e: DynamicExpr, v: usize) -> Option<usize>
    decreases e,
{
    match e {
        DynamicExpr::Lit(x) => Some(x),
        DynamicExpr::State => Some(v),
        DynamicExpr::Add(l, r) => match (expr_value(*l, v), expr_value(*r, v)) {
            (Some(a), Some(b)) => if a + b <= usize::MAX { Some((a + b) as usize) } else { None },
            _ => None,
        },
        DynamicExpr::Sub(l, r) => match (expr_value(*l, v), expr_value(*r, v)) {
            (Some(a), Some(b)) => if a >= b { Some((a - b) as usize) } else { None },
            _ => None,
        },
    }
}

impl DynamicExpr {
    /// Evaluates the expression with checked arithmetic.
    pub fn evaluate(&self, state_value: usize) -> (r: Option<usize>)
        ensures
            r == expr_value(*self, state_value),
        decreases self,
    {
        match self {
            DynamicExpr::Lit(value) => Some(*value),
            DynamicExpr::State => Some(state_value),
            DynamicExpr::Add(lhs, rhs) => {
                let a = lhs.evaluate(state_value)?;
                let b = rhs.evaluate(state_value)?;
                a.checked_add(b)
            },
            DynamicExpr::Sub(lhs, rhs) => {
                let a = lhs.evaluate(state_value)?;
                let b = rhs.evaluate(state_value)?;
                a.checked_sub(b)
            },
        }
    }
}

/// Whether a projected count satisfies the guard against the stored count.
pub open spec fn guard_matches(g: DynamicGuard, projected: usize, stored: usize) -> bool {
    match g {
        DynamicGuard::Equal => projected == stored,
        DynamicGuard::LessThan => projected < stored,
        DynamicGuard::Range { min, max_exclusive } => match (
            expr_value(min, stored),
            expr_value(max_exclusive, stored),
        ) {
            (Some(lo), Some(hi)) => lo <= projected && projected < hi,
            _ => false,
        },
    }
}

impl DynamicGuard {
    /// Checks a projected count against the stored count.
    pub fn matches_count(&self, projected: usize, stored: usize) -> (b: bool)
        ensures
            b == guard_matches(*self, projected, stored),
    {
        match self {
            DynamicGuard::Equal => projected == stored,
            DynamicGuard::LessThan => projected < stored,
            DynamicGuard::Range { min, max_exclusive } => {
                match (min.evaluate(stored), max_exclusive.evaluate(stored)) {
                    (Some(lo), Some(hi)) => projected >= lo && projected < hi,
                    _ => false,
                }
            },
        }
    }
}

/// The position after `c` consecutive copies of `unit` in `text` from `at`,
/// or `None` if they are not there.
pub open spec fn repeat_end(text: Seq<char>, at: int, unit: Seq<char>, c: nat) -> Option<int>
    decreases c,
{
    if c == 0 {
        Some(at)
    } else {
        match repeat_end(text, at, unit, (c - 1) as nat) {
            Some(e) => if 0 <= e && e + unit.len() <= text.len() && text.subrange(e, e + unit.len())
                == unit {
                Some(e + unit.len())
            } else {
                None
            },
            None => None,
        }
    }
}

proof fn lemma_repeat_end_stuck(text: Seq<char>, at: int, unit: Seq<char>, c: nat, m: nat)
    requires
        c <= m,
        repeat_end(text, at, unit, c) is None,
    ensures
        repeat_end(text, at, unit, m) is None,
    decreases m - c,
{
    if c < m {
        lemma_repeat_end_stuck(text, at, unit, c, (m - 1) as nat);
    }
}

proof fn lemma_repeat_end_bounds(text: Seq<char>, at: int, unit: Seq<char>, c: nat)
    requires
        0 <= at <= text.len(),
    ensures
        repeat_end(text, at, unit, c) matches Some(e) ==> at <= e <= text.len(),
    decreases c,
{
    if c > 0 {
        lemma_repeat_end_bounds(text, at, unit, (c - 1) as nat);
    }
}

/// The dynamic pattern's DFAs are well formed.
pub open spec fn dynamic_pattern_wf(p: DynamicPattern) -> bool {
    &&& dfa_wf(p.prefix)
    &&& dfa_wf(p.suffix)
    &&& (p.capture matches Some(c) ==> dfa_wf(c))
}

/// `c` copies of `unit` follow a prefix ending at `pos`, and the suffix DFA
/// matches the whole rest of the text.
pub open spec fn count_valid(
    p: DynamicPattern,
    t: Seq<(char, char, usize)>,
    text: Seq<char>,
    unit: Seq<char>,
    min: usize,
    max: usize,
    pos: int,
    c: int,
) -> bool {
    &&& ends_at(p.prefix, t, text, pos)
    &&& min <= c <= max
    &&& match repeat_end(text, pos, unit, c as nat) {
        Some(e) => 0 <= e <= text.len() && matches_exact(p.suffix, t, text.subrange(e, text.len() as int)),
        None => false,
    }
}

/// `c` is a valid count, and no valid count is larger.
pub open spec fn count_is_max(
    p: DynamicPattern,
    t: Seq<(char, char, usize)>,
    text: Seq<char>,
    unit: Seq<char>,
    min: usize,
    max: usize,
    c: int,
) -> bool {
    &&& exists|pos: int| count_valid(p, t, text, unit, min, max, pos, c)
    &&& forall|pos2: int, c2: int| #[trigger]
        count_valid(p, t, text, unit, min, max, pos2, c2) ==> c2 <= c
}

/// The count a count pattern projects out of `text`: the largest number of
/// copies of `unit` (between `min` and `max`) that can stand between a prefix
/// and a suffix that together with them make up the text.
pub open spec fn spec_extract_count(
    p: DynamicPattern,
    t: Seq<(char, char, usize)>,
    text: Seq<char>,
    unit: Seq<char>,
    min: usize,
    max: usize,
) -> Option<usize> {
    if unit.len() == 0 || min > max {
        None
    } else if exists|pos: int, c: int| count_valid(p, t, text, unit, min, max, pos, c) {
        Some((choose|c: int| count_is_max(p, t, text, unit, min, max, c)) as usize)
    } else {
        None
    }
}

/// A capture of `r` characters follows a prefix ending at `pos`, and the
/// suffix DFA matches the whole rest of the text.
pub open spec fn capture_valid(
    p: DynamicPattern,
    t: Seq<(char, char, usize)>,
    text: Seq<char>,
    pos: int,
    r: int,
) -> bool {
    &&& ends_at(p.prefix, t, text, pos)
    &&& p.capture matches Some(cd)
    &&& ends_at(cd, t, text.subrange(pos, text.len() as int), r)
    &&& matches_exact(p.suffix, t, text.subrange(pos + r, text.len() as int))
}

/// The best capture: the longest one, and of those the one whose prefix ends first.
pub open spec fn capture_best(
    p: DynamicPattern,
    t: Seq<(char, char, usize)>,
    text: Seq<char>,
    pos: int,
    r: int,
) -> bool {
    &&& capture_valid(p, t, text, pos, r)
    &&& forall|pos2: int, r2: int| #[trigger]
        capture_valid(p, t, text, pos2, r2) ==> r2 < r || (r2 == r && pos <= pos2)
}

/// The text a string capture pattern projects out of `text`.
pub open spec fn spec_extract_str_capture(
    p: DynamicPattern,
    t: Seq<(char, char, usize)>,
    text: Seq<char>,
) -> Option<Seq<char>> {
    if exists|pos: int, r: int| capture_best(p, t, text, pos, r) {
        let (pos, r) = choose|pos: int, r: int| capture_best(p, t, text, pos, r);
        Some(text.subrange(pos, pos + r))
    } else {
        None
    }
}

/// The stored string follows a prefix of the text, and the suffix DFA matches
/// the whole rest.
pub open spec fn str_validation_holds(
    p: DynamicPattern,
    t: Seq<(char, char, usize)>,
    text: Seq<char>,
    stored: Seq<char>,
) -> bool {
    exists|pos: int|
        #![trigger ends_at(p.prefix, t, text, pos)]
        ends_at(p.prefix, t, text, pos) && pos + stored.len() <= text.len() && text.subrange(
            pos,
            pos + stored.len(),
        ) == stored && matches_exact(
            p.suffix,
            t,
            text.subrange(pos + stored.len(), text.len() as int),
        )
}

/// The abstract value of a runtime-state slot.
pub enum SpecValue {
    Count(usize),
    Str(Seq<char>),
}

pub open spec fn value_view(v: DynamicValue) -> SpecValue {
    match v {
        DynamicValue::Count(n) => SpecValue::Count(n),
        DynamicValue::Str(s) => SpecValue::Str(s@),
    }
}

/// The value a pattern projects out of a matched text.
pub open spec fn spec_project(
    p: DynamicPattern,
    t: Seq<(char, char, usize)>,
    text: Seq<char>,
) -> Option<SpecValue> {
    match p.op {
        DynamicOp::CaptureCount { unit, min, max, .. } => match spec_extract_count(
            p,
            t,
            text,
            unit@,
            min,
            max,
        ) {
            Some(n) => Some(SpecValue::Count(n)),
            None => None,
        },
        DynamicOp::ValidateCount { unit, min, max, .. } => match spec_extract_count(
            p,
            t,
            text,
            unit@,
            min,
            max,
        ) {
            Some(n) => Some(SpecValue::Count(n)),
            None => None,
        },
        DynamicOp::CaptureStr { .. } => match spec_extract_str_capture(p, t, text) {
            Some(s) => Some(SpecValue::Str(s)),
            None => None,
        },
        DynamicOp::ValidateStr { .. } => None,
    }
}

/// The abstract runtime-state slots.
pub open spec fn slots_view(state: Seq<Option<DynamicValue>>) -> Seq<Option<SpecValue>> {
    state.map_values(
        |v: Option<DynamicValue>|
            match v {
                Some(x) => Some(value_view(x)),
                None => None,
            },
    )
}

/// Whether an accept with this pattern may be taken for the matched text,
/// given the stored slot values.
pub open spec fn spec_is_eligible(
    p: DynamicPattern,
    t: Seq<(char, char, usize)>,
    state: Seq<Option<SpecValue>>,
    text: Seq<char>,
) -> bool {
    match p.op {
        DynamicOp::CaptureCount { .. } => spec_project(p, t, text) is Some,
        DynamicOp::CaptureStr { .. } => spec_project(p, t, text) is Some,
        DynamicOp::ValidateCount { state_index, guard, .. } => {
            &&& (state_index as int) < state.len()
            &&& state[state_index as int] matches Some(SpecValue::Count(stored))
            &&& spec_project(p, t, text) matches Some(SpecValue::Count(projected))
            &&& guard_matches(guard, projected, stored)
        },
        DynamicOp::ValidateStr { state_index } => {
            &&& (state_index as int) < state.len()
            &&& state[state_index as int] matches Some(SpecValue::Str(stored))
            &&& str_validation_holds(p, t, text, stored)
        },
    }
}

impl DynamicPattern {
    /// The largest valid count after a prefix that ends at `pos`.
    fn best_count_at(
        &self,
        text: &[char],
        unit: &[char],
        min: usize,
        max: usize,
        pos: usize,
        table: &CharClassTable,
    ) -> (r: Option<usize>)
        requires
            dynamic_pattern_wf(*self),
            table.wf(),
            ends_at(self.prefix, table.intervals@, text@, pos as int),
            unit@.len() > 0,
        ensures
            r matches Some(c) ==> count_valid(*self, table.intervals@, text@, unit@, min, max, pos as int, c as int),
            forall|c2: int| #[trigger] count_valid(*self, table.intervals@, text@, unit@, min, max, pos as int, c2)
                ==> (r matches Some(c) && c2 <= c),
    {
        let ghost t = table.intervals@;
        let text_len = text.len();
        let mut positions: Vec<usize> = Vec::new();
        positions.push(pos);
        let mut next = pos;
        let mut count: usize = 0;
        assert(repeat_end(text@, pos as int, unit@, 0) == Some(pos as int));
        loop
            invariant
                count <= max,
                pos <= text@.len(),
                text_len == text@.len(),
                next <= text@.len(),
                unit@.len() == unit.len(),
                positions@.len() == count + 1,
                positions@[count as int] == next,
                forall|k: int| 0 <= k <= count ==> repeat_end(text@, pos as int, unit@, k as nat) == Some(#[trigger] positions@[k] as int),
            ensures
                count <= max,
                positions@.len() == count + 1,
                forall|k: int| 0 <= k <= count ==> repeat_end(text@, pos as int, unit@, k as nat) == Some(#[trigger] positions@[k] as int),
                count == max || repeat_end(text@, pos as int, unit@, (count + 1) as nat) is None,
            decreases max - count,
        {
            if count >= max {
                break;
            }
            if !starts_with_at(text, next, unit) {
                break;
            }
            next = next + unit.len();
            count = count + 1;
            positions.push(next);
        }
        assert forall|c2: int| count < c2 implies !#[trigger] count_valid(*self, t, text@, unit@, min, max, pos as int, c2) by {
            if c2 <= max {
                assert(count < max);
                assert(repeat_end(text@, pos as int, unit@, (count + 1) as nat) is None);
                lemma_repeat_end_stuck(text@, pos as int, unit@, (count + 1) as nat, c2 as nat);
            }
        }
        let mut j: usize = positions.len();
        while j > 0
            invariant
                j <= count + 1,
                count <= max,
                positions@.len() == count + 1,
                pos <= text@.len(),
                text_len == text@.len(),
                ends_at(self.prefix, t, text@, pos as int),
                dynamic_pattern_wf(*self),
                table.wf(),
                t == table.intervals@,
                forall|k: int| 0 <= k <= count ==> repeat_end(text@, pos as int, unit@, k as nat) == Some(#[trigger] positions@[k] as int),
                forall|c2: int| j <= c2 ==> !#[trigger] count_valid(*self, t, text@, unit@, min, max, pos as int, c2),
            decreases j,
        {
            j = j - 1;
            let e = positions[j];
            proof {
                lemma_repeat_end_bounds(text@, pos as int, unit@, j as nat);
            }
            if j < min {
                continue;
            }
            let rest = sub_chars(text, e, text.len());
            if dfa_matches_exact(&self.suffix, &rest, table) {
                assert(count_valid(*self, t, text@, unit@, min, max, pos as int, j as int));
                return Some(j);
            }
        }
        None
    }

    /// The count projected out of `matched_text` for the repetition unit `unit`.
    fn extract_count(
        &self,
        matched_text: &[char],
        unit: &[char],
        min: usize,
        max: usize,
        class_for: &CharClassTable,
    ) -> (r: Option<usize>)
        requires
            dynamic_pattern_wf(*self),
            class_for.wf(),
        ensures
            r == spec_extract_count(*self, class_for.intervals@, matched_text@, unit@, min, max),
    {
        let ghost t = class_for.intervals@;
        if unit.len() == 0 || min > max {
            return None;
        }
        let text_len = matched_text.len();
        let ends = accepted_end_positions(&self.prefix, matched_text, class_for);
        let mut best: Option<usize> = None;
        let mut a: usize = 0;
        while a < ends.len()
            invariant
                a <= ends@.len(),
                text_len == matched_text@.len(),
                unit@.len() > 0,
                dynamic_pattern_wf(*self),
                class_for.wf(),
                t == class_for.intervals@,
                forall|i: int| 0 <= i < ends@.len() ==> ends_at(self.prefix, t, matched_text@, #[trigger] ends@[i] as int),
                forall|k: int| ends_at(self.prefix, t, matched_text@, k) ==> ends@.contains(k as usize),
                forall|i: int, c: int| 0 <= i < a && #[trigger] count_valid(*self, t, matched_text@, unit@, min, max, ends@[i] as int, c)
                    ==> (best matches Some(b) && c <= b),
                best matches Some(b) ==> exists|pos: int| count_valid(*self, t, matched_text@, unit@, min, max, pos, b as int),
            decreases ends.len() - a,
        {
            let p = ends[a];
            match self.best_count_at(matched_text, unit, min, max, p, class_for) {
                Some(c) => {
                    let better = match best {
                        None => true,
                        Some(b) => c > b,
                    };
                    if better {
                        best = Some(c);
                    }
                },
                None => {},
            }
            a = a + 1;
        }
        proof {
            assert forall|pos: int, c: int| #[trigger] count_valid(*self, t, matched_text@, unit@, min, max, pos, c)
                implies (best matches Some(b) && c <= b) by {
                assert(0 <= pos <= matched_text@.len());
                assert(ends@.contains(pos as usize));
                let i = choose|i: int| 0 <= i < ends@.len() && ends@[i] == pos as usize;
                assert(count_valid(*self, t, matched_text@, unit@, min, max, ends@[i] as int, c));
            }
            match best {
                Some(b) => {
                    assert(count_is_max(*self, t, matched_text@, unit@, min, max, b as int));
                    let c0 = choose|c: int| count_is_max(*self, t, matched_text@, unit@, min, max, c);
                    let pos0 = choose|pos: int| count_valid(*self, t, matched_text@, unit@, min, max, pos, c0);
                    assert(count_valid(*self, t, matched_text@, unit@, min, max, pos0, c0));
                    let pos1 = choose|pos: int| count_valid(*self, t, matched_text@, unit@, min, max, pos, b as int);
                    assert(count_valid(*self, t, matched_text@, unit@, min, max, pos1, b as int));
                    assert(c0 == b);
                },
                None => {},
            }
        }
        best
    }

    /// The longest capture after a prefix that ends at `pos`.
    fn best_capture_at(&self, text: &[char], pos: usize, table: &CharClassTable) -> (r: Option<usize>)
        requires
            dynamic_pattern_wf(*self),
            table.wf(),
            self.capture is Some,
            ends_at(self.prefix, table.intervals@, text@, pos as int),
        ensures
            r matches Some(c) ==> capture_valid(*self, table.intervals@, text@, pos as int, c as int),
            forall|c2: int| #[trigger] capture_valid(*self, table.intervals@, text@, pos as int, c2)
                ==> (r matches Some(c) && c2 <= c),
    {
        let ghost t = table.intervals@;
        let capture = match &self.capture {
            Some(cd) => cd,
            None => { return None; },
        };
        let text_len = text.len();
        let tail = sub_chars(text, pos, text.len());
        let ends = accepted_end_positions(capture, &tail, table);
        let mut j: usize = ends.len();
        while j > 0
            invariant
                j <= ends@.len(),
                pos <= text@.len(),
                text_len == text@.len(),
                ends_at(self.prefix, t, text@, pos as int),
                tail@ == text@.subrange(pos as int, text@.len() as int),
                dynamic_pattern_wf(*self),
                table.wf(),
                t == table.intervals@,
                self.capture == Some(*capture),
                forall|a: int, b: int| 0 <= a < b < ends@.len() ==> ends@[a] < ends@[b],
                forall|a: int| 0 <= a < ends@.len() ==> ends_at(*capture, t, tail@, #[trigger] ends@[a] as int),
                forall|k: int| ends_at(*capture, t, tail@, k) ==> ends@.contains(k as usize),
                forall|c2: int| #[trigger] capture_valid(*self, t, text@, pos as int, c2)
                    ==> exists|a: int| 0 <= a < j && ends@[a] == c2,
            decreases j,
        {
            j = j - 1;
            let r = ends[j];
            assert(ends_at(*capture, t, tail@, ends@[j as int] as int));
            assert(r <= text@.len() - pos);
            let rest = sub_chars(text, pos + r, text.len());
            assert(rest@ =~= text@.subrange(pos + r, text@.len() as int));
            if dfa_matches_exact(&self.suffix, &rest, table) {
                assert forall|c2: int| #[trigger] capture_valid(*self, t, text@, pos as int, c2)
                    implies c2 <= r by {
                    let a = choose|a: int| 0 <= a < j + 1 && ends@[a] == c2;
                    if a < j {
                        assert(ends@[a] < ends@[j as int]);
                    }
                }
                return Some(r);
            }
            assert forall|c2: int| #[trigger] capture_valid(*self, t, text@, pos as int, c2)
                implies exists|a: int| 0 <= a < j && ends@[a] == c2 by {
                let a = choose|a: int| 0 <= a < j + 1 && ends@[a] == c2;
                if a == j {
                    assert(c2 == r);
                }
            }
        }
        None
    }

    /// The text projected out of `matched_text` by a string capture.
    fn extract_str_capture(&self, matched_text: &[char], class_for: &CharClassTable) -> (r: Option<Vec<char>>)
        requires
            dynamic_pattern_wf(*self),
            class_for.wf(),
        ensures
            (match r {
                Some(v) => Some(v@),
                None => None,
            }) == spec_extract_str_capture(*self, class_for.intervals@, matched_text@),
    {
        let ghost t = class_for.intervals@;
        if self.capture.is_none() {
            assert(!exists|pos: int, r: int| capture_best(*self, t, matched_text@, pos, r));
            return None;
        }
        let text_len = matched_text.len();
        let ends = accepted_end_positions(&self.prefix, matched_text, class_for);
        let mut best: Option<(usize, usize)> = None;
        let mut a: usize = 0;
        while a < ends.len()
            invariant
                a <= ends@.len(),
                text_len == matched_text@.len(),
                dynamic_pattern_wf(*self),
                class_for.wf(),
                self.capture is Some,
                t == class_for.intervals@,
                forall|i: int, j: int| 0 <= i < j < ends@.len() ==> ends@[i] < ends@[j],
                forall|i: int| 0 <= i < ends@.len() ==> ends_at(self.prefix, t, matched_text@, #[trigger] ends@[i] as int),
                forall|k: int| ends_at(self.prefix, t, matched_text@, k) ==> ends@.contains(k as usize),
                forall|i: int, c: int| 0 <= i < a && #[trigger] capture_valid(*self, t, matched_text@, ends@[i] as int, c)
                    ==> (best matches Some((bp, br)) && (c < br || (c == br && bp <= ends@[i]))),
                best matches Some((bp, br)) ==> capture_valid(*self, t, matched_text@, bp as int, br as int)
                    && exists|i: int| 0 <= i < a && ends@[i] == bp,
            decreases ends.len() - a,
        {
            let p = ends[a];
            match self.best_capture_at(matched_text, p, class_for) {
                Some(r) => {
                    let better = match best {
                        None => true,
                        Some((_, br)) => r > br,
                    };
                    if better {
                        best = Some((p, r));
                    }
                },
                None => {},
            }
            proof {
                assert forall|i: int, c: int| 0 <= i < a + 1 && #[trigger] capture_valid(*self, t, matched_text@, ends@[i] as int, c)
                    implies (best matches Some((bp, br)) && (c < br || (c == br && bp <= ends@[i]))) by {
                    if i < a {
                        match best {
                            Some((bp, br)) => {
                                let k = choose|k: int| 0 <= k < a + 1 && ends@[k] == bp;
                                if k < i {
                                    assert(ends@[k] < ends@[i]);
                                } else if k > i {
                                    assert(ends@[i] < ends@[k]);
                                }
                            },
                            None => {},
                        }
                    }
                }
            }
            a = a + 1;
        }
        proof {
            assert forall|pos: int, c: int| #[trigger] capture_valid(*self, t, matched_text@, pos, c)
                implies (best matches Some((bp, br)) && (c < br || (c == br && bp <= pos))) by {
                assert(0 <= pos <= matched_text@.len());
                assert(ends@.contains(pos as usize));
                let i = choose|i: int| 0 <= i < ends@.len() && ends@[i] == pos as usize;
                assert(capture_valid(*self, t, matched_text@, ends@[i] as int, c));
            }
        }
        match best {
            Some((bp, br)) => {
                proof {
                    assert(capture_best(*self, t, matched_text@, bp as int, br as int));
                    let (p0, r0) = choose|pos: int, r: int| capture_best(*self, t, matched_text@, pos, r);
                    assert(capture_best(*self, t, matched_text@, p0, r0));
                    assert(capture_valid(*self, t, matched_text@, p0, r0));
                    assert(p0 == bp && r0 == br);
                }
                let v = sub_chars(matched_text, bp, bp + br);
                Some(v)
            },
            None => {
                assert(!exists|pos: int, r: int| capture_best(*self, t, matched_text@, pos, r));
                None
            },
        }
    }

    /// Whether `stored` follows a prefix of `matched_text` and the suffix DFA
    /// matches the rest exactly.
    fn extract_str_validation(&self, matched_text: &[char], stored: &[char], class_for: &CharClassTable) -> (b: bool)
        requires
            dynamic_pattern_wf(*self),
            class_for.wf(),
        ensures
            b == str_validation_holds(*self, class_for.intervals@, matched_text@, stored@),
    {
        let ghost t = class_for.intervals@;
        let text_len = matched_text.len();
        let ends = accepted_end_positions(&self.prefix, matched_text, class_for);
        let mut a: usize = 0;
        while a < ends.len()
            invariant
                a <= ends@.len(),
                text_len == matched_text@.len(),
                dynamic_pattern_wf(*self),
                class_for.wf(),
                t == class_for.intervals@,
                forall|i: int| 0 <= i < ends@.len() ==> ends_at(self.prefix, t, matched_text@, #[trigger] ends@[i] as int),
                forall|i: int| 0 <= i < a ==> !(#[trigger] ends@[i] + stored@.len() <= matched_text@.len()
                    && matched_text@.subrange(ends@[i] as int, ends@[i] + stored@.len()) == stored@
                    && matches_exact(self.suffix, t, matched_text@.subrange(ends@[i] + stored@.len(), matched_text@.len() as int))),
            decreases ends.len() - a,
        {
            let p = ends[a];
            assert(ends_at(self.prefix, t, matched_text@, ends@[a as int] as int));
            if starts_with_at(matched_text, p, stored) {
                let rest = sub_chars(matched_text, p + stored.len(), matched_text.len());
                if dfa_matches_exact(&self.suffix, &rest, class_for) {
                    return true;
                }
            }
            a = a + 1;
        }
        proof {
            if str_validation_holds(*self, t, matched_text@, stored@) {
                let pos = choose|pos: int| #![trigger ends_at(self.prefix, t, matched_text@, pos)]
                    ends_at(self.prefix, t, matched_text@, pos) && pos + stored@.len() <= matched_text@.len()
                    && matched_text@.subrange(pos, pos + stored@.len()) == stored@
                    && matches_exact(self.suffix, t, matched_text@.subrange(pos + stored@.len(), matched_text@.len() as int));
                assert(ends@.contains(pos as usize));
                let i = choose|i: int| 0 <= i < ends@.len() && ends@[i] == pos as usize;
                assert(ends@[i] == pos);
            }
        }
        false
    }

    /// The value this pattern projects out of `matched_text`: a count for
    /// count patterns, the captured text for string captures, nothing for
    /// string validations.
    pub fn project(&self, matched_text: &[char], class_for: &CharClassTable) -> (r: Option<DynamicValue>)
        requires
            dynamic_pattern_wf(*self),
            class_for.wf(),
        ensures
            (match r {
                Some(v) => Some(value_view(v)),
                None => None,
            }) == spec_project(*self, class_for.intervals@, matched_text@),
    {
        match &self.op {
            DynamicOp::CaptureCount { unit, min, max, .. } => {
                let u = str_to_chars(unit.as_str());
                match self.extract_count(matched_text, &u, *min, *max, class_for) {
                    Some(n) => Some(DynamicValue::Count(n)),
                    None => None,
                }
            },
            DynamicOp::ValidateCount { unit, min, max, .. } => {
                let u = str_to_chars(unit.as_str());
                match self.extract_count(matched_text, &u, *min, *max, class_for) {
                    Some(n) => Some(DynamicValue::Count(n)),
                    None => None,
                }
            },
            DynamicOp::CaptureStr { .. } => match self.extract_str_capture(matched_text, class_for) {
                Some(v) => Some(DynamicValue::Str(chars_to_string(&v))),
                None => None,
            },
            DynamicOp::ValidateStr { .. } => None,
        }
    }

    /// Whether an accept with this pattern may be taken for `matched_text`,
    /// given the stored slot values.
    pub fn is_eligible(
        &self,
        state: &[Option<DynamicValue>],
        matched_text: &[char],
        class_for: &CharClassTable,
    ) -> (b: bool)
        requires
            dynamic_pattern_wf(*self),
            class_for.wf(),
        ensures
            b == spec_is_eligible(*self, class_for.intervals@, slots_view(state@), matched_text@),
    {
        match &self.op {
            DynamicOp::CaptureCount { .. } | DynamicOp::CaptureStr { .. } => {
                self.project(matched_text, class_for).is_some()
            },
            DynamicOp::ValidateCount { state_index, guard, .. } => {
                if *state_index < state.len() {
                    match &state[*state_index] {
                        Some(DynamicValue::Count(stored)) => match self.project(matched_text, class_for) {
                            Some(DynamicValue::Count(projected)) => guard.matches_count(projected, *stored),
                            _ => false,
                        },
                        _ => false,
                    }
                } else {
                    false
                }
            },
            DynamicOp::ValidateStr { state_index } => {
                if *state_index < state.len() {
                    match &state[*state_index] {
                        Some(DynamicValue::Str(stored)) => {
                            let sv = str_to_chars(stored.as_str());
                            self.extract_str_validation(matched_text, &sv, class_for)
                        },
                        _ => false,
                    }
                } else {
                    false
                }
            },
        }
    }
}

} // verus!
