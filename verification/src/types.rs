//! The data that describes a scanner: its modes, their DFAs, accept data and
//! mode transitions, and the values of runtime state.
use vstd::prelude::*;

verus! {

/// A transition between scanner modes, triggered by a token type number.
pub enum Transition {
    /// On the token type (first), enter the mode (second).
    SetMode(usize, usize),
    /// On the token type (first), push the current mode and enter the mode (second).
    PushMode(usize, usize),
    /// On the token type, return to the most recently pushed mode; with an empty
    /// mode stack, stay in the current mode.
    PopMode(usize),
}

impl Transition {
    pub open spec fn spec_token_type(self) -> usize {
        match self {
            Transition::SetMode(t, _) => t,
            Transition::PushMode(t, _) => t,
            Transition::PopMode(t) => t,
        }
    }

    /// Returns the token type number of this transition.
    pub fn token_type(&self) -> (t: usize)
        ensures
            t == self.spec_token_type(),
    {
        match self {
            Transition::SetMode(t, _) => *t,
            Transition::PushMode(t, _) => *t,
            Transition::PopMode(t) => *t,
        }
    }

    /// A copy of this transition.
    pub fn duplicate(&self) -> (r: Transition)
        ensures
            r == *self,
    {
        match self {
            Transition::SetMode(t, m) => Transition::SetMode(*t, *m),
            Transition::PushMode(t, m) => Transition::PushMode(*t, *m),
            Transition::PopMode(t) => Transition::PopMode(*t),
        }
    }
}

/// A scanner mode: its name, its mode transitions and the DFA of its tokens.
pub struct ScannerMode {
    pub name: String,
    pub transitions: Vec<Transition>,
    pub dfa: Dfa,
}

/// A deterministic finite automaton; state 0 is the start state.
pub struct Dfa {
    pub states: Vec<DfaState>,
}

/// A DFA state: one optional transition per character class, and the accept
/// data of the tokens accepted here, in order of preference.
pub struct DfaState {
    pub transitions: Vec<Option<DfaTransition>>,
    pub accept_data: Vec<AcceptData>,
}

/// A transition of a DFA to the state with index `to`.
pub struct DfaTransition {
    pub to: usize,
}

/// What a DFA state accepts: a token type with its priority (lower is
/// preferred), a lookahead condition and an optional runtime-state pattern.
pub struct AcceptData {
    pub token_type: usize,
    pub priority: usize,
    pub lookahead: Lookahead,
    pub dynamic: Option<DynamicPattern>,
}

/// A lookahead condition on the text that follows a match.
pub enum Lookahead {
    /// No condition on the text that follows.
    Absent,
    /// The text after the match must begin with a non-empty match of the DFA.
    Positive(Dfa),
    /// The text after the match must not begin with a non-empty match of the DFA.
    Negative(Dfa),
}

/// A runtime-state pattern attached to an accept: the matched text is split
/// into a prefix (matched by `prefix`), a dynamic segment and a suffix (matched
/// exactly by `suffix`); `capture` matches the segment of a string capture.
pub struct DynamicPattern {
    pub op: DynamicOp,
    pub prefix: Dfa,
    pub suffix: Dfa,
    pub capture: Option<Dfa>,
}

/// The operation of a runtime-state pattern on a state slot.
pub enum DynamicOp {
    /// Count repetitions (between `min` and `max`) of `unit` and store the count.
    CaptureCount { state_index: usize, unit: String, min: usize, max: usize },
    /// Count repetitions of `unit` and accept only if the guard holds against the
    /// stored count.
    ValidateCount { state_index: usize, unit: String, min: usize, max: usize, guard: DynamicGuard },
    /// Store the text that the capture DFA matches.
    CaptureStr { state_index: usize },
    /// Accept only if the stored string follows the prefix.
    ValidateStr { state_index: usize },
}

/// A comparison of a counted value with the stored count.
pub enum DynamicGuard {
    Equal,
    LessThan,
    Range { min: DynamicExpr, max_exclusive: DynamicExpr },
}

/// An arithmetic expression over the stored count.
pub enum DynamicExpr {
    Lit(usize),
    State,
    Add(Box<DynamicExpr>, Box<DynamicExpr>),
    Sub(Box<DynamicExpr>, Box<DynamicExpr>),
}

/// A value held in a runtime-state slot.
pub enum DynamicValue {
    Count(usize),
    Str(String),
}

/// A value stored in state storage during scanning.
pub enum StateValue {
    Count(usize),
    Str(String),
}

/// An expression for constraint evaluation over the stored value `n`.
pub enum ConstraintExpr {
    Lit(usize),
    N,
    Add(Box<ConstraintExpr>, Box<ConstraintExpr>),
    Sub(Box<ConstraintExpr>, Box<ConstraintExpr>),
}

/// The value of a constraint expression with saturating arithmetic.
pub open spec fn constraint_value(e: ConstraintExpr, n: usize) -> usize
    decreases e,
{
    match e {
        ConstraintExpr::Lit(v) => v,
        ConstraintExpr::N => n,
        ConstraintExpr::Add(l, r) => {
            let s = constraint_value(*l, n) + constraint_value(*r, n);
            if s > usize::MAX { usize::MAX } else { s as usize }
        },
        ConstraintExpr::Sub(l, r) => {
            let d = constraint_value(*l, n) - constraint_value(*r, n);
            if d < 0 { 0 } else { d as usize }
        },
    }
}

impl ConstraintExpr {
    /// Evaluates the expression for the stored value `n`; addition and
    /// subtraction saturate at the bounds of `usize`.
    pub fn evaluate(&self, n: usize) -> (v: usize)
        ensures
            v == constraint_value(*self, n),
        decreases self,
    {
        match self {
            ConstraintExpr::Lit(v) => *v,
            ConstraintExpr::N => n,
            ConstraintExpr::Add(lhs, rhs) => lhs.evaluate(n).saturating_add(rhs.evaluate(n)),
            ConstraintExpr::Sub(lhs, rhs) => lhs.evaluate(n).saturating_sub(rhs.evaluate(n)),
        }
    }
}

/// A constraint on a counted length, relative to the stored count.
pub enum ValidationConstraint {
    /// The count equals the stored value.
    Equals,
    /// The count is less than the stored value.
    LessThan,
    /// The count lies in `min..max_exclusive`.
    Range { min: ConstraintExpr, max_exclusive: ConstraintExpr },
}

/// Whether `captured_len` satisfies the constraint for the stored value.
pub open spec fn constraint_holds(c: ValidationConstraint, captured_len: usize, stored_n: usize) -> bool {
    match c {
        ValidationConstraint::Equals => captured_len == stored_n,
        ValidationConstraint::LessThan => captured_len < stored_n,
        ValidationConstraint::Range { min, max_exclusive } => constraint_value(min, stored_n)
            <= captured_len && captured_len < constraint_value(max_exclusive, stored_n),
    }
}

/// The tie-breaking rank of a constraint: lower is more specific.
pub open spec fn constraint_specificity(c: ValidationConstraint) -> usize {
    match c {
        ValidationConstraint::Equals => 0,
        ValidationConstraint::Range { .. } => 1,
        ValidationConstraint::LessThan => 2,
    }
}

impl ValidationConstraint {
    /// Validates the captured length against the stored count value.
    pub fn validate(&self, captured_len: usize, stored_n: usize) -> (b: bool)
        ensures
            b == constraint_holds(*self, captured_len, stored_n),
    {
        match self {
            ValidationConstraint::Equals => captured_len == stored_n,
            ValidationConstraint::LessThan => captured_len < stored_n,
            ValidationConstraint::Range { min, max_exclusive } => {
                let min_val = min.evaluate(stored_n);
                let max_val = max_exclusive.evaluate(stored_n);
                captured_len >= min_val && captured_len < max_val
            },
        }
    }

    /// Returns the specificity for tie-breaking (lower is more specific):
    /// `Equals` 0, `Range` 1, `LessThan` 2.
    pub fn specificity(&self) -> (r: usize)
        ensures
            r == constraint_specificity(*self),
    {
        match self {
            ValidationConstraint::Equals => 0,
            ValidationConstraint::Range { .. } => 1,
            ValidationConstraint::LessThan => 2,
        }
    }
}

/// A runtime state operation attached to accept states.
pub enum StateOp {
    CaptureCount { state_name: String, capture_pattern: String, group: usize },
    ValidateCount {
        state_name: String,
        capture_pattern: String,
        group: usize,
        constraint: ValidationConstraint,
    },
    CaptureStr { state_name: String, group: usize },
    ValidateStr { state_name: String, group: usize },
}

/// The specificity of a guard, ranked as `ValidationConstraint::specificity`.
pub open spec fn guard_specificity(g: DynamicGuard) -> usize {
    match g {
        DynamicGuard::Equal => 0,
        DynamicGuard::Range { .. } => 1,
        DynamicGuard::LessThan => 2,
    }
}

/// The specificity of an accept: that of its count validation guard, 0 for a
/// string validation, and 3 for captures and accepts without runtime state.
pub open spec fn accept_specificity(a: AcceptData) -> usize {
    match a.dynamic {
        Some(p) => match p.op {
            DynamicOp::ValidateCount { guard, .. } => guard_specificity(guard),
            DynamicOp::ValidateStr { .. } => 0,
            _ => 3,
        },
        None => 3,
    }
}

impl AcceptData {
    /// Returns the specificity order for tie-breaking (lower is more specific).
    pub fn specificity(&self) -> (r: usize)
        ensures
            r == accept_specificity(*self),
    {
        match &self.dynamic {
            Some(p) => match &p.op {
                DynamicOp::ValidateCount { guard, .. } => match guard {
                    DynamicGuard::Equal => 0,
                    DynamicGuard::Range { .. } => 1,
                    DynamicGuard::LessThan => 2,
                },
                DynamicOp::ValidateStr { .. } => 0,
                _ => 3,
            },
            None => 3,
        }
    }
}

} // verus!
