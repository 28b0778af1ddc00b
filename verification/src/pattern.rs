//! A token pattern of a scanner mode: its regular expression, token type,
//! priority, lookahead condition and runtime-state operation.
use vstd::prelude::*;
use vstd::string::StringExecFns;
use crate::dynamic::{
    copy_opt_string, copy_string, CompileTimeConstraint, CompiledDynamicPattern, DynamicOp, DynamicSegment,
    UnresolvedDynamicPattern,
};
use crate::keyword::same_text;
use crate::nfa::Nfa;
use crate::regex_ast::regex_syntax_error;

verus! {

/// The token type of patterns that stand for no token: lookahead conditions
/// and the parts of runtime-state patterns.
pub const NO_TOKEN_TYPE: usize = 0xffff_ffff;

/// A lookahead condition of a pattern, by the regular expression that must
/// (or must not) follow a match.
pub enum Lookahead {
    /// No condition.
    Absent,
    /// The match must be followed by a match of the expression.
    Positive(String),
    /// The match must not be followed by a match of the expression.
    Negative(String),
}

/// The runtime-state part of a pattern: as written, or resolved against the
/// declared states.
pub enum PatternDynamic {
    Unresolved(UnresolvedDynamicPattern),
    Compiled(CompiledDynamicPattern),
}

/// A token pattern.
pub struct Pattern {
    /// The regular expression of the token.
    pub pattern: String,
    /// The token type number.
    pub terminal_type: usize,
    /// The priority: of two patterns that match the same text, the one with
    /// the lower value wins.
    pub priority: usize,
    /// The lookahead condition.
    pub lookahead: Lookahead,
    /// The runtime-state operation, if any.
    pub dynamic: Option<PatternDynamic>,
}

/// Two lookahead conditions of the same kind with the same expression.
pub open spec fn lookahead_same(a: Lookahead, b: Lookahead) -> bool {
    match (a, b) {
        (Lookahead::Absent, Lookahead::Absent) => true,
        (Lookahead::Positive(x), Lookahead::Positive(y)) => x@ == y@,
        (Lookahead::Negative(x), Lookahead::Negative(y)) => x@ == y@,
        _ => false,
    }
}

/// Two optional strings with the same text.
pub open spec fn opt_string_same(a: Option<String>, b: Option<String>) -> bool {
    match (a, b) {
        (None, None) => true,
        (Some(x), Some(y)) => x@ == y@,
        _ => false,
    }
}

/// Two segments with the same content.
pub open spec fn segment_same(a: DynamicSegment, b: DynamicSegment) -> bool {
    match (a, b) {
        (DynamicSegment::Regex { pattern: p }, DynamicSegment::Regex { pattern: q }) => p@ == q@,
        (DynamicSegment::Capture { pattern: p, state_name: s }, DynamicSegment::Capture { pattern: q, state_name: t }) =>
            opt_string_same(p, q) && s@ == t@,
        (
            DynamicSegment::Validate { pattern: p, state_name: s, constraint: c },
            DynamicSegment::Validate { pattern: q, state_name: t, constraint: d },
        ) => opt_string_same(p, q) && s@ == t@ && c == d,
        _ => false,
    }
}

/// Two operations with the same content.
pub open spec fn op_same(a: DynamicOp, b: DynamicOp) -> bool {
    match (a, b) {
        (
            DynamicOp::CaptureCount { state_index: i, unit: u, min: m, max: x },
            DynamicOp::CaptureCount { state_index: j, unit: v, min: n, max: y },
        ) => i == j && u@ == v@ && m == n && x == y,
        (
            DynamicOp::ValidateCount { state_index: i, unit: u, min: m, max: x, guard: g },
            DynamicOp::ValidateCount { state_index: j, unit: v, min: n, max: y, guard: h },
        ) => i == j && u@ == v@ && m == n && x == y && g == h,
        (DynamicOp::CaptureStr { state_index: i }, DynamicOp::CaptureStr { state_index: j }) => i == j,
        (DynamicOp::ValidateStr { state_index: i }, DynamicOp::ValidateStr { state_index: j }) => i == j,
        _ => false,
    }
}

/// Two resolved runtime-state patterns with the same content.
pub open spec fn compiled_same(a: CompiledDynamicPattern, b: CompiledDynamicPattern) -> bool {
    &&& op_same(a.op, b.op)
    &&& a.prefix_regex@ == b.prefix_regex@
    &&& a.suffix_regex@ == b.suffix_regex@
    &&& opt_string_same(a.capture_regex, b.capture_regex)
}

/// Two runtime-state parts with the same content.
pub open spec fn dynamic_same(a: Option<PatternDynamic>, b: Option<PatternDynamic>) -> bool {
    match (a, b) {
        (None, None) => true,
        (Some(PatternDynamic::Unresolved(x)), Some(PatternDynamic::Unresolved(y))) =>
            x.segments@.len() == y.segments@.len() && forall|i: int|
                0 <= i < x.segments@.len() ==> segment_same(#[trigger] x.segments@[i], y.segments@[i]),
        (Some(PatternDynamic::Compiled(x)), Some(PatternDynamic::Compiled(y))) => compiled_same(x, y),
        _ => false,
    }
}

/// Two patterns with the same content.
pub open spec fn pattern_same(a: Pattern, b: Pattern) -> bool {
    &&& a.pattern@ == b.pattern@
    &&& a.terminal_type == b.terminal_type
    &&& a.priority == b.priority
    &&& lookahead_same(a.lookahead, b.lookahead)
    &&& dynamic_same(a.dynamic, b.dynamic)
}

/// Two lists of patterns with the same content, pattern by pattern.
pub open spec fn patterns_same(a: Seq<Pattern>, b: Seq<Pattern>) -> bool {
    &&& a.len() == b.len()
    &&& forall|k: int| 0 <= k < a.len() ==> pattern_same(#[trigger] a[k], b[k])
}

proof fn lemma_segment_same_equiv(a: DynamicSegment, b: DynamicSegment, c: DynamicSegment)
    ensures
        segment_same(a, a),
        segment_same(a, b) ==> segment_same(b, a),
        segment_same(a, b) && segment_same(b, c) ==> segment_same(a, c),
{
}

proof fn lemma_dynamic_same_equiv(a: Option<PatternDynamic>, b: Option<PatternDynamic>, c: Option<PatternDynamic>)
    ensures
        dynamic_same(a, a),
        dynamic_same(a, b) ==> dynamic_same(b, a),
        dynamic_same(a, b) && dynamic_same(b, c) ==> dynamic_same(a, c),
{
    match a {
        Some(PatternDynamic::Unresolved(x)) => {
            let xs = x.segments@;
            assert forall|i: int| 0 <= i < xs.len() implies segment_same(#[trigger] xs[i], xs[i]) by {
                lemma_segment_same_equiv(xs[i], xs[i], xs[i]);
            }
            match b {
                Some(PatternDynamic::Unresolved(y)) => {
                    let ys = y.segments@;
                    if dynamic_same(a, b) {
                        assert forall|i: int| 0 <= i < ys.len() implies segment_same(#[trigger] ys[i], xs[i]) by {
                            lemma_segment_same_equiv(xs[i], ys[i], xs[i]);
                        }
                    }
                    match c {
                        Some(PatternDynamic::Unresolved(z)) => {
                            let zs = z.segments@;
                            if dynamic_same(a, b) && dynamic_same(b, c) {
                                assert forall|i: int| 0 <= i < xs.len() implies segment_same(#[trigger] xs[i], zs[i]) by {
                                    lemma_segment_same_equiv(xs[i], ys[i], zs[i]);
                                }
                            }
                        },
                        _ => {},
                    }
                },
                _ => {},
            }
        },
        _ => {},
    }
}

/// Having the same content is an equivalence on patterns.
pub proof fn lemma_pattern_same_equiv(a: Pattern, b: Pattern, c: Pattern)
    ensures
        pattern_same(a, a),
        pattern_same(a, b) ==> pattern_same(b, a),
        pattern_same(a, b) && pattern_same(b, c) ==> pattern_same(a, c),
{
    lemma_dynamic_same_equiv(a.dynamic, b.dynamic, c.dynamic);
}

/// Having the same content, pattern by pattern, is an equivalence on lists
/// of patterns.
pub proof fn lemma_patterns_same_equiv(a: Seq<Pattern>, b: Seq<Pattern>, c: Seq<Pattern>)
    ensures
        patterns_same(a, a),
        patterns_same(a, b) ==> patterns_same(b, a),
        patterns_same(a, b) && patterns_same(b, c) ==> patterns_same(a, c),
{
    assert forall|k: int| 0 <= k < a.len() implies pattern_same(#[trigger] a[k], a[k]) by {
        lemma_pattern_same_equiv(a[k], a[k], a[k]);
    }
    if patterns_same(a, b) {
        assert forall|k: int| 0 <= k < b.len() implies pattern_same(#[trigger] b[k], a[k]) by {
            lemma_pattern_same_equiv(a[k], b[k], a[k]);
        }
        if patterns_same(b, c) {
            assert forall|k: int| 0 <= k < a.len() implies pattern_same(#[trigger] a[k], c[k]) by {
                lemma_pattern_same_equiv(a[k], b[k], c[k]);
            }
        }
    }
}

/// Whether two optional strings have the same text.
pub fn same_opt_string(a: &Option<String>, b: &Option<String>) -> (r: bool)
    ensures
        r == opt_string_same(*a, *b),
{
    match (a, b) {
        (None, None) => true,
        (Some(x), Some(y)) => same_text(x.as_str(), y.as_str()),
        _ => false,
    }
}

/// Whether two optional count constraints are the same.
fn same_opt_constraint(a: &Option<CompileTimeConstraint>, b: &Option<CompileTimeConstraint>) -> (r: bool)
    ensures
        r == (*a == *b),
{
    match (a, b) {
        (None, None) => true,
        (Some(x), Some(y)) => x.same_as(y),
        _ => false,
    }
}

/// Whether two segments have the same content.
pub fn same_segment(a: &DynamicSegment, b: &DynamicSegment) -> (r: bool)
    ensures
        r == segment_same(*a, *b),
{
    match (a, b) {
        (DynamicSegment::Regex { pattern: p }, DynamicSegment::Regex { pattern: q }) => same_text(p.as_str(), q.as_str()),
        (DynamicSegment::Capture { pattern: p, state_name: s }, DynamicSegment::Capture { pattern: q, state_name: t }) =>
            same_opt_string(p, q) && same_text(s.as_str(), t.as_str()),
        (
            DynamicSegment::Validate { pattern: p, state_name: s, constraint: c },
            DynamicSegment::Validate { pattern: q, state_name: t, constraint: d },
        ) => same_opt_string(p, q) && same_text(s.as_str(), t.as_str()) && same_opt_constraint(c, d),
        _ => false,
    }
}

/// Whether two operations have the same content.
pub fn same_op(a: &DynamicOp, b: &DynamicOp) -> (r: bool)
    ensures
        r == op_same(*a, *b),
{
    match (a, b) {
        (
            DynamicOp::CaptureCount { state_index: i, unit: u, min: m, max: x },
            DynamicOp::CaptureCount { state_index: j, unit: v, min: n, max: y },
        ) => *i == *j && same_text(u.as_str(), v.as_str()) && *m == *n && *x == *y,
        (
            DynamicOp::ValidateCount { state_index: i, unit: u, min: m, max: x, guard: g },
            DynamicOp::ValidateCount { state_index: j, unit: v, min: n, max: y, guard: h },
        ) => *i == *j && same_text(u.as_str(), v.as_str()) && *m == *n && *x == *y && g.same_as(h),
        (DynamicOp::CaptureStr { state_index: i }, DynamicOp::CaptureStr { state_index: j }) => *i == *j,
        (DynamicOp::ValidateStr { state_index: i }, DynamicOp::ValidateStr { state_index: j }) => *i == *j,
        _ => false,
    }
}

/// Whether two runtime-state parts have the same content.
pub fn same_dynamic(a: &Option<PatternDynamic>, b: &Option<PatternDynamic>) -> (r: bool)
    ensures
        r == dynamic_same(*a, *b),
{
    match (a, b) {
        (None, None) => true,
        (Some(PatternDynamic::Unresolved(x)), Some(PatternDynamic::Unresolved(y))) => {
            if x.segments.len() != y.segments.len() {
                return false;
            }
            let mut i: usize = 0;
            while i < x.segments.len()
                invariant
                    i <= x.segments@.len(),
                    x.segments@.len() == y.segments@.len(),
                    forall|k: int| 0 <= k < i ==> segment_same(#[trigger] x.segments@[k], y.segments@[k]),
                    *a == Some(PatternDynamic::Unresolved(*x)),
                    *b == Some(PatternDynamic::Unresolved(*y)),
                decreases x.segments.len() - i,
            {
                if !same_segment(&x.segments[i], &y.segments[i]) {
                    assert(!segment_same(x.segments@[i as int], y.segments@[i as int]));
                    return false;
                }
                i = i + 1;
            }
            true
        },
        (Some(PatternDynamic::Compiled(x)), Some(PatternDynamic::Compiled(y))) =>
            same_op(&x.op, &y.op) && same_text(x.prefix_regex.as_str(), y.prefix_regex.as_str())
                && same_text(x.suffix_regex.as_str(), y.suffix_regex.as_str())
                && same_opt_string(&x.capture_regex, &y.capture_regex),
        _ => false,
    }
}

/// Whether two lists of patterns have the same content.
pub fn same_patterns(a: &Vec<Pattern>, b: &Vec<Pattern>) -> (r: bool)
    ensures
        r == patterns_same(a@, b@),
{
    if a.len() != b.len() {
        return false;
    }
    let mut k: usize = 0;
    while k < a.len()
        invariant
            k <= a@.len(),
            a@.len() == b@.len(),
            forall|u: int| 0 <= u < k ==> pattern_same(#[trigger] a@[u], b@[u]),
        decreases a.len() - k,
    {
        if !a[k].same_as(&b[k]) {
            return false;
        }
        k = k + 1;
    }
    true
}

impl Pattern {
    /// Whether the two patterns have the same content.
    pub fn same_as(&self, other: &Pattern) -> (r: bool)
        ensures
            r == pattern_same(*self, *other),
    {
        same_text(self.pattern.as_str(), other.pattern.as_str())
            && self.terminal_type == other.terminal_type
            && self.priority == other.priority
            && self.lookahead.same_as(&other.lookahead)
            && same_dynamic(&self.dynamic, &other.dynamic)
    }
}

impl Lookahead {
    /// Whether the two conditions are the same.
    pub fn same_as(&self, other: &Lookahead) -> (r: bool)
        ensures
            r == lookahead_same(*self, *other),
    {
        match (self, other) {
            (Lookahead::Absent, Lookahead::Absent) => true,
            (Lookahead::Positive(x), Lookahead::Positive(y)) => same_text(x.as_str(), y.as_str()),
            (Lookahead::Negative(x), Lookahead::Negative(y)) => same_text(x.as_str(), y.as_str()),
            _ => false,
        }
    }
}

impl Lookahead {
    /// A copy of this condition.
    pub fn duplicate(&self) -> (r: Lookahead)
        ensures
            lookahead_same(r, *self),
    {
        match self {
            Lookahead::Absent => Lookahead::Absent,
            Lookahead::Positive(p) => Lookahead::Positive(copy_string(p)),
            Lookahead::Negative(p) => Lookahead::Negative(copy_string(p)),
        }
    }

    /// A positive lookahead condition on the expression; fails where no
    /// automaton can be built from the expression.
    pub fn positive(pattern: String) -> (r: Result<Lookahead, String>)
        ensures
            r matches Ok(l) ==> l matches Lookahead::Positive(p) && p@ == pattern@,
            r matches Err(e) ==> exists|m: Seq<char>| e@ == "Failed to create NFA from regex pattern: "@ + m,
            regex_syntax_error(pattern@) matches Some(m) ==> r matches Err(e) && e@ == "Failed to create NFA from regex pattern: "@ + m,
            r is Ok ==> regex_syntax_error(pattern@) is None,
            crate::nfa::expression_builds(pattern@) ==> r is Ok,
    {
        match Self::check_expression(&pattern) {
            Ok(()) => Ok(Lookahead::Positive(pattern)),
            Err(e) => Err(e),
        }
    }

    /// A negative lookahead condition on the expression; fails where no
    /// automaton can be built from the expression.
    pub fn negative(pattern: String) -> (r: Result<Lookahead, String>)
        ensures
            r matches Ok(l) ==> l matches Lookahead::Negative(p) && p@ == pattern@,
            r matches Err(e) ==> exists|m: Seq<char>| e@ == "Failed to create NFA from regex pattern: "@ + m,
            regex_syntax_error(pattern@) matches Some(m) ==> r matches Err(e) && e@ == "Failed to create NFA from regex pattern: "@ + m,
            r is Ok ==> regex_syntax_error(pattern@) is None,
            crate::nfa::expression_builds(pattern@) ==> r is Ok,
    {
        match Self::check_expression(&pattern) {
            Ok(()) => Ok(Lookahead::Negative(pattern)),
            Err(e) => Err(e),
        }
    }

    /// Builds the automaton of a lookahead expression to see that it can be
    /// built.
    fn check_expression(pattern: &String) -> (r: Result<(), String>)
        ensures
            r matches Err(e) ==> exists|m: Seq<char>| e@ == "Failed to create NFA from regex pattern: "@ + m,
            regex_syntax_error(pattern@) matches Some(m) ==> r matches Err(e) && e@ == "Failed to create NFA from regex pattern: "@ + m,
            r is Ok ==> regex_syntax_error(pattern@) is None,
            crate::nfa::expression_builds(pattern@) ==> r is Ok,
    {
        match Nfa::build(&Pattern::new(copy_string(pattern), NO_TOKEN_TYPE)) {
            Ok(_) => Ok(()),
            Err(e) => {
                let mut msg = String::from_str("Failed to create NFA from regex pattern: ");
                msg.append(e.as_str());
                assert(msg@ == "Failed to create NFA from regex pattern: "@ + e@);
                Err(msg)
            },
        }
    }

    /// Whether this is no condition.
    pub fn is_absent(&self) -> (r: bool)
        ensures
            r == (*self is Absent),
    {
        match self {
            Lookahead::Absent => true,
            _ => false,
        }
    }
}

impl DynamicSegment {
    /// A copy of this segment.
    pub fn duplicate(&self) -> (r: DynamicSegment)
        ensures
            segment_same(r, *self),
    {
        match self {
            DynamicSegment::Regex { pattern } => DynamicSegment::Regex { pattern: copy_string(pattern) },
            DynamicSegment::Capture { pattern, state_name } => DynamicSegment::Capture {
                pattern: copy_opt_string(pattern),
                state_name: copy_string(state_name),
            },
            DynamicSegment::Validate { pattern, state_name, constraint } => DynamicSegment::Validate {
                pattern: copy_opt_string(pattern),
                state_name: copy_string(state_name),
                constraint: match constraint {
                    Some(c) => Some(c.duplicate()),
                    None => None,
                },
            },
        }
    }
}

impl DynamicOp {
    /// A copy of this operation.
    pub fn duplicate(&self) -> (r: DynamicOp)
        ensures
            op_same(r, *self),
    {
        match self {
            DynamicOp::CaptureCount { state_index, unit, min, max } => DynamicOp::CaptureCount {
                state_index: *state_index,
                unit: copy_string(unit),
                min: *min,
                max: *max,
            },
            DynamicOp::ValidateCount { state_index, unit, min, max, guard } => DynamicOp::ValidateCount {
                state_index: *state_index,
                unit: copy_string(unit),
                min: *min,
                max: *max,
                guard: guard.duplicate(),
            },
            DynamicOp::CaptureStr { state_index } => DynamicOp::CaptureStr { state_index: *state_index },
            DynamicOp::ValidateStr { state_index } => DynamicOp::ValidateStr { state_index: *state_index },
        }
    }
}

impl CompiledDynamicPattern {
    /// A copy of this pattern.
    pub fn duplicate(&self) -> (r: CompiledDynamicPattern)
        ensures
            compiled_same(r, *self),
    {
        CompiledDynamicPattern {
            op: self.op.duplicate(),
            prefix_regex: copy_string(&self.prefix_regex),
            suffix_regex: copy_string(&self.suffix_regex),
            capture_regex: copy_opt_string(&self.capture_regex),
        }
    }
}

/// A copy of an optional runtime-state part.
fn duplicate_dynamic(d: &Option<PatternDynamic>) -> (r: Option<PatternDynamic>)
    ensures
        dynamic_same(r, *d),
{
    match d {
        None => None,
        Some(PatternDynamic::Compiled(c)) => Some(PatternDynamic::Compiled(c.duplicate())),
        Some(PatternDynamic::Unresolved(u)) => {
            let mut segments: Vec<DynamicSegment> = Vec::new();
            let mut i: usize = 0;
            while i < u.segments.len()
                invariant
                    i <= u.segments@.len(),
                    segments@.len() == i,
                    forall|k: int| 0 <= k < i ==> segment_same(#[trigger] segments@[k], u.segments@[k]),
                decreases u.segments.len() - i,
            {
                segments.push(u.segments[i].duplicate());
                i = i + 1;
            }
            Some(PatternDynamic::Unresolved(UnresolvedDynamicPattern { segments }))
        },
    }
}

impl Pattern {
    /// A pattern with the given expression and token type, priority 0, no
    /// lookahead and no runtime-state operation.
    pub fn new(pattern: String, terminal_type: usize) -> (p: Pattern)
        ensures
            p.pattern@ == pattern@,
            p.terminal_type == terminal_type,
            p.priority == 0,
            p.lookahead is Absent,
            p.dynamic is None,
    {
        Pattern { pattern, terminal_type, priority: 0, lookahead: Lookahead::Absent, dynamic: None }
    }

    /// This pattern with the given lookahead condition.
    pub fn with_lookahead(self, lookahead: Lookahead) -> (p: Pattern)
        ensures
            p == (Pattern { lookahead, ..self }),
    {
        Pattern { lookahead, ..self }
    }

    /// This pattern with the given priority.
    pub fn with_priority(self, priority: usize) -> (p: Pattern)
        ensures
            p == (Pattern { priority, ..self }),
    {
        Pattern { priority, ..self }
    }

    /// This pattern with runtime-state segments as written.
    pub fn with_unresolved_dynamic(self, dynamic: UnresolvedDynamicPattern) -> (p: Pattern)
        ensures
            p == (Pattern { dynamic: Some(PatternDynamic::Unresolved(dynamic)), ..self }),
    {
        Pattern { dynamic: Some(PatternDynamic::Unresolved(dynamic)), ..self }
    }

    /// This pattern with a resolved runtime-state pattern, in place of any
    /// earlier one.
    pub fn with_dynamic(self, dynamic: CompiledDynamicPattern) -> (p: Pattern)
        ensures
            p == (Pattern { dynamic: Some(PatternDynamic::Compiled(dynamic)), ..self }),
    {
        Pattern { dynamic: Some(PatternDynamic::Compiled(dynamic)), ..self }
    }

    /// The resolved runtime-state pattern, if the pattern has one.
    pub fn compiled(&self) -> (r: Option<&CompiledDynamicPattern>)
        ensures
            self.dynamic matches Some(PatternDynamic::Compiled(c)) ==> r == Some(&c),
            !(self.dynamic matches Some(PatternDynamic::Compiled(_))) ==> r is None,
    {
        match &self.dynamic {
            Some(PatternDynamic::Compiled(c)) => Some(c),
            _ => None,
        }
    }

    /// The runtime-state segments as written, if the pattern still has them.
    pub fn unresolved(&self) -> (r: Option<&UnresolvedDynamicPattern>)
        ensures
            self.dynamic matches Some(PatternDynamic::Unresolved(u)) ==> r == Some(&u),
            !(self.dynamic matches Some(PatternDynamic::Unresolved(_))) ==> r is None,
    {
        match &self.dynamic {
            Some(PatternDynamic::Unresolved(u)) => Some(u),
            _ => None,
        }
    }

    /// Whether a match of the pattern is accepted whatever follows it and
    /// whatever the runtime state: it has no lookahead and no validation.
    pub fn is_unconditional_accept(&self) -> (r: bool)
        ensures
            r == (self.lookahead is Absent && !(self.dynamic matches Some(PatternDynamic::Compiled(c))
                && (c.op is ValidateCount || c.op is ValidateStr))),
    {
        if !self.lookahead.is_absent() {
            return false;
        }
        match &self.dynamic {
            Some(PatternDynamic::Compiled(c)) => match &c.op {
                DynamicOp::ValidateCount { .. } => false,
                DynamicOp::ValidateStr { .. } => false,
                _ => true,
            },
            _ => true,
        }
    }

    /// A copy of this pattern.
    pub fn duplicate(&self) -> (r: Pattern)
        ensures
            pattern_same(r, *self),
    {
        Pattern {
            pattern: copy_string(&self.pattern),
            terminal_type: self.terminal_type,
            priority: self.priority,
            lookahead: self.lookahead.duplicate(),
            dynamic: duplicate_dynamic(&self.dynamic),
        }
    }
}

} // verus!
