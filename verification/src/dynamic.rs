//! Runtime-state declarations and operations of the scanner description, as
//! written in the description and as resolved against the declared states.
use vstd::prelude::*;
use vstd::string::StringExecFns;
use crate::regex_ast::{escape, escaped, parse_regex, regex_syntax_error, regex_tree, RegexAst};
use crate::text::{chars_to_string, str_to_chars};

verus! {

/// The type of a declared runtime state.
pub enum StateType {
    /// A count with the inclusive bounds `min..=max`.
    Count { min: usize, max: usize },
    /// A string matched by the regular expression `pattern`.
    Str { pattern: String },
}

/// A declared runtime state: its name, slot index and type.
pub struct StateDeclaration {
    pub name: String,
    pub index: usize,
    pub state_type: StateType,
}

/// An arithmetic expression over the stored count, as written.
pub enum CompileTimeExpr {
    Lit(usize),
    State,
    Add(Box<CompileTimeExpr>, Box<CompileTimeExpr>),
    Sub(Box<CompileTimeExpr>, Box<CompileTimeExpr>),
}

impl CompileTimeExpr {
    /// Whether the two expressions are the same.
    pub fn same_as(&self, other: &CompileTimeExpr) -> (r: bool)
        ensures
            r == (*self == *other),
        decreases self,
    {
        match self {
            CompileTimeExpr::Lit(a) => match other {
                CompileTimeExpr::Lit(b) => *a == *b,
                _ => false,
            },
            CompileTimeExpr::State => match other {
                CompileTimeExpr::State => true,
                _ => false,
            },
            CompileTimeExpr::Add(a1, a2) => match other {
                CompileTimeExpr::Add(b1, b2) => (**a1).same_as(&**b1) && (**a2).same_as(&**b2),
                _ => false,
            },
            CompileTimeExpr::Sub(a1, a2) => match other {
                CompileTimeExpr::Sub(b1, b2) => (**a1).same_as(&**b1) && (**a2).same_as(&**b2),
                _ => false,
            },
        }
    }
}

/// A constraint of a count validation, as written.
pub enum CompileTimeConstraint {
    Equals,
    LessThan,
    Range { min: CompileTimeExpr, max_exclusive: CompileTimeExpr },
}

impl CompileTimeConstraint {
    /// Whether the two constraints are the same.
    pub fn same_as(&self, other: &CompileTimeConstraint) -> (r: bool)
        ensures
            r == (*self == *other),
    {
        match (self, other) {
            (CompileTimeConstraint::Equals, CompileTimeConstraint::Equals) => true,
            (CompileTimeConstraint::LessThan, CompileTimeConstraint::LessThan) => true,
            (
                CompileTimeConstraint::Range { min: a, max_exclusive: b },
                CompileTimeConstraint::Range { min: c, max_exclusive: d },
            ) => a.same_as(c) && b.same_as(d),
            _ => false,
        }
    }
}

/// A segment of a token pattern: a regular expression, or a capture or
/// validation of a declared state.
pub enum DynamicSegment {
    Regex { pattern: String },
    Capture { pattern: Option<String>, state_name: String },
    Validate { pattern: Option<String>, state_name: String, constraint: Option<CompileTimeConstraint> },
}

/// The segments of a token pattern before they are resolved against the
/// declared states.
pub struct UnresolvedDynamicPattern {
    pub segments: Vec<DynamicSegment>,
}

/// A runtime-state operation resolved against its state declaration.
pub enum DynamicOp {
    CaptureCount { state_index: usize, unit: String, min: usize, max: usize },
    ValidateCount { state_index: usize, unit: String, min: usize, max: usize, guard: CompileTimeConstraint },
    CaptureStr { state_index: usize },
    ValidateStr { state_index: usize },
}

/// A resolved runtime-state pattern: the operation and the regular
/// expressions of the text before it, after it, and of a string capture.
pub struct CompiledDynamicPattern {
    pub op: DynamicOp,
    pub prefix_regex: String,
    pub suffix_regex: String,
    pub capture_regex: Option<String>,
}

/// A copy of a string.
pub fn copy_string(s: &String) -> (r: String)
    ensures
        r@ == s@,
{
    s.clone()
}

/// A copy of an optional string.
pub fn copy_opt_string(s: &Option<String>) -> (r: Option<String>)
    ensures
        r is Some <==> s is Some,
        r is Some ==> r->0@ == s->0@,
{
    match s {
        Some(x) => Some(x.clone()),
        None => None,
    }
}

impl CompileTimeExpr {
    /// A copy of this expression.
    pub fn duplicate(&self) -> (r: CompileTimeExpr)
        ensures
            r == *self,
        decreases self,
    {
        match self {
            CompileTimeExpr::Lit(v) => CompileTimeExpr::Lit(*v),
            CompileTimeExpr::State => CompileTimeExpr::State,
            CompileTimeExpr::Add(a, b) => CompileTimeExpr::Add(Box::new(a.duplicate()), Box::new(b.duplicate())),
            CompileTimeExpr::Sub(a, b) => CompileTimeExpr::Sub(Box::new(a.duplicate()), Box::new(b.duplicate())),
        }
    }
}

impl CompileTimeConstraint {
    /// A copy of this constraint.
    pub fn duplicate(&self) -> (r: CompileTimeConstraint)
        ensures
            r == *self,
    {
        match self {
            CompileTimeConstraint::Equals => CompileTimeConstraint::Equals,
            CompileTimeConstraint::LessThan => CompileTimeConstraint::LessThan,
            CompileTimeConstraint::Range { min, max_exclusive } => CompileTimeConstraint::Range {
                min: min.duplicate(),
                max_exclusive: max_exclusive.duplicate(),
            },
        }
    }
}


/// The decimal digits of `n`.
pub open spec fn decimal(n: nat) -> Seq<char>
    decreases n,
{
    if n < 10 {
        seq![digit_char(n)]
    } else {
        decimal(n / 10) + seq![digit_char(n % 10)]
    }
}

/// The character of a decimal digit.
pub open spec fn digit_char(d: nat) -> char {
    if d == 0 { '0' } else if d == 1 { '1' } else if d == 2 { '2' } else if d == 3 { '3' } else if d == 4 { '4' }
    else if d == 5 { '5' } else if d == 6 { '6' } else if d == 7 { '7' } else if d == 8 { '8' } else { '9' }
}

fn digit(d: usize) -> (c: char)
    requires
        d < 10,
    ensures
        c == digit_char(d as nat),
{
    if d == 0 { '0' } else if d == 1 { '1' } else if d == 2 { '2' } else if d == 3 { '3' } else if d == 4 { '4' }
    else if d == 5 { '5' } else if d == 6 { '6' } else if d == 7 { '7' } else if d == 8 { '8' } else { '9' }
}

/// Appends the decimal digits of `n` to `out`.
pub(crate) fn push_decimal(out: &mut Vec<char>, n: usize)
    ensures
        final(out)@ == old(out)@ + decimal(n as nat),
    decreases n,
{
    if n < 10 {
        out.push(digit(n));
    } else {
        push_decimal(out, n / 10);
        out.push(digit(n % 10));
        assert(final(out)@ =~= old(out)@ + decimal(n as nat));
    }
}

/// Appends the characters of `s` to `out`.
pub(crate) fn push_str(out: &mut Vec<char>, s: &str)
    ensures
        final(out)@ == old(out)@ + s@,
{
    let chars = str_to_chars(s);
    let mut i: usize = 0;
    while i < chars.len()
        invariant
            i <= chars@.len(),
            chars@ == s@,
            out@ == old(out)@ + chars@.take(i as int),
        decreases chars.len() - i,
    {
        out.push(chars[i]);
        i = i + 1;
        assert(out@ =~= old(out)@ + chars@.take(i as int));
    }
    assert(chars@.take(chars@.len() as int) =~= chars@);
}

/// The regular expression of `min` to `max` repetitions of the literal text
/// `unit`: `(?:unit){min,max}` with the meta characters of `unit` escaped.
pub open spec fn bounded_count(unit: Seq<char>, min: usize, max: usize) -> Seq<char> {
    seq!['(', '?', ':'] + escaped(unit) + seq![')', '{'] + decimal(min as nat) + seq![','] + decimal(max as nat) + seq!['}']
}

/// The regular expression of `min` to `max` repetitions of the literal text `unit`.
pub fn bounded_count_regex(unit: &str, min: usize, max: usize) -> (r: String)
    ensures
        r@ == bounded_count(unit@, min, max),
{
    let escaped_unit = escape(unit);
    let mut out: Vec<char> = Vec::new();
    out.push('(');
    out.push('?');
    out.push(':');
    push_str(&mut out, escaped_unit.as_str());
    out.push(')');
    out.push('{');
    push_decimal(&mut out, min);
    out.push(',');
    push_decimal(&mut out, max);
    out.push('}');
    assert(out@ =~= bounded_count(unit@, min, max));
    chars_to_string(out.as_slice())
}

/// The regular expression `(?:pattern)`.
pub open spec fn grouped(pattern: Seq<char>) -> Seq<char> {
    seq!['(', '?', ':'] + pattern + seq![')']
}

fn group_regex(pattern: &str) -> (r: String)
    ensures
        r@ == grouped(pattern@),
{
    let mut out: Vec<char> = Vec::new();
    out.push('(');
    out.push('?');
    out.push(':');
    push_str(&mut out, pattern);
    out.push(')');
    assert(out@ =~= grouped(pattern@));
    chars_to_string(out.as_slice())
}

/// Whether an expression has a capturing group.
pub open spec fn has_capture(ast: RegexAst) -> bool
    decreases ast, 0int,
{
    match ast {
        RegexAst::Capture(_) => true,
        RegexAst::Concat(subs) => any_capture(subs@, subs@.len() as int),
        RegexAst::Alternation(subs) => any_capture(subs@, subs@.len() as int),
        RegexAst::Repetition { sub, .. } => has_capture(*sub),
        _ => false,
    }
}

/// Whether one of the first `n` expressions has a capturing group.
pub open spec fn any_capture(subs: Seq<RegexAst>, n: int) -> bool
    decreases subs, n,
{
    if n <= 0 || n > subs.len() {
        false
    } else {
        any_capture(subs, n - 1) || has_capture(subs[n - 1])
    }
}

proof fn lemma_any_capture_mono(subs: Seq<RegexAst>, m: int, n: int)
    requires
        0 <= m <= n <= subs.len(),
        any_capture(subs, m),
    ensures
        any_capture(subs, n),
    decreases n - m,
{
    if m < n {
        lemma_any_capture_mono(subs, m, n - 1);
    }
}

/// Whether an expression has a capturing group.
pub fn has_capturing_groups(ast: &RegexAst) -> (r: bool)
    ensures
        r == has_capture(*ast),
    decreases ast,
{
    match ast {
        RegexAst::Capture(_) => true,
        RegexAst::Concat(subs) | RegexAst::Alternation(subs) => {
            let mut i: usize = 0;
            while i < subs.len()
                invariant
                    i <= subs@.len(),
                    *ast == RegexAst::Concat(*subs) || *ast == RegexAst::Alternation(*subs),
                    !any_capture(subs@, i as int),
                decreases subs.len() - i,
            {
                proof {
                    if *ast == RegexAst::Concat(*subs) {
                        assert(decreases_to!(*ast => (*ast)->Concat_0));
                    } else {
                        assert(decreases_to!(*ast => (*ast)->Alternation_0));
                    }
                    assert(decreases_to!(*subs => subs@));
                    assert(decreases_to!(subs@ => subs@[i as int]));
                }
                if has_capturing_groups(&subs[i]) {
                    proof {
                        lemma_any_capture_mono(subs@, i + 1, subs@.len() as int);
                    }
                    return true;
                }
                i = i + 1;
            }
            false
        },
        RegexAst::Repetition { sub, .. } => has_capturing_groups(sub),
        _ => false,
    }
}

/// Whether `regex_syntax` parses the pattern and its expression has no
/// capturing group.
pub open spec fn capture_free(pattern: Seq<char>) -> bool {
    regex_syntax_error(pattern) is None && !has_capture(regex_tree(pattern))
}

/// Checks that a regular expression parses and has no capturing group.
pub fn ensure_no_capturing_groups(pattern: &str) -> (r: Result<(), String>)
    ensures
        r matches Err(e) ==> e@ == "capturing groups are not allowed in dynamic-state patterns; use (?:...)"@
            || exists|m: Seq<char>| e@ == "invalid regex pattern: "@ + m,
        regex_syntax_error(pattern@) matches Some(m) ==> r matches Err(e) && e@ == "invalid regex pattern: "@ + m,
        r is Ok <==> capture_free(pattern@),
        regex_syntax_error(pattern@) is None && has_capture(regex_tree(pattern@))
            ==> (r matches Err(e) && e@ == "capturing groups are not allowed in dynamic-state patterns; use (?:...)"@),
{
    match parse_regex(pattern) {
        Ok(ast) => {
            if has_capturing_groups(&ast) {
                Err(String::from_str("capturing groups are not allowed in dynamic-state patterns; use (?:...)"))
            } else {
                Ok(())
            }
        },
        Err(e) => {
            let mut msg = String::from_str("invalid regex pattern: ");
            msg.append(e.as_str());
            assert(msg@ == "invalid regex pattern: "@ + e@);
            Err(msg)
        },
    }
}


/// Whether the segment captures or validates a state.
pub open spec fn is_op_segment(seg: DynamicSegment) -> bool {
    seg is Capture || seg is Validate
}

/// The number of capturing or validating segments among the first `n`.
pub open spec fn op_count(segs: Seq<DynamicSegment>, n: int) -> nat
    decreases n,
{
    if n <= 0 || n > segs.len() {
        0
    } else {
        op_count(segs, n - 1) + if is_op_segment(segs[n - 1]) { 1nat } else { 0nat }
    }
}

/// The regular expressions of the segments, joined.
pub open spec fn joined_regex(segs: Seq<DynamicSegment>) -> Seq<char>
    decreases segs.len(),
{
    if segs.len() == 0 {
        Seq::empty()
    } else {
        joined_regex(segs.drop_last()) + match segs.last() {
            DynamicSegment::Regex { pattern } => pattern@,
            _ => Seq::empty(),
        }
    }
}

/// The index of the first declaration of the state `name`.
pub open spec fn first_declared(states: Seq<StateDeclaration>, name: Seq<char>) -> Option<int> {
    if exists|i: int| 0 <= i < states.len() && (#[trigger] states[i]).name@ == name {
        Some(choose|i: int| 0 <= i < states.len() && states[i].name@ == name
            && forall|j: int| 0 <= j < i ==> (#[trigger] states[j]).name@ != name)
    } else {
        None
    }
}

/// The regular expression of a capture or validation of a declared state, and
/// the expression of a captured string: `None` where the state is not
/// declared, where a count is used as a string or a string as a count, or a
/// string validation has a count constraint.
pub open spec fn resolution(seg: DynamicSegment, states: Seq<StateDeclaration>) -> Option<(Seq<char>, Option<Seq<char>>)> {
    let (unit, name, constraint, capture) = match seg {
        DynamicSegment::Capture { pattern, state_name } => (pattern, state_name, None, true),
        DynamicSegment::Validate { pattern, state_name, constraint } => (pattern, state_name, constraint, false),
        DynamicSegment::Regex { pattern } => (None, pattern, None, true),
    };
    match first_declared(states, name@) {
        None => None,
        Some(i) => match (unit, states[i].state_type) {
            (Some(u), StateType::Count { min, max }) => Some((bounded_count(u@, min, max), None)),
            (None, StateType::Str { pattern }) => if capture {
                Some((grouped(pattern@), Some(pattern@)))
            } else if constraint is Some {
                None
            } else {
                Some((grouped(pattern@), None))
            },
            _ => None,
        },
    }
}

/// The error of resolving a capture or validation where its state is not
/// declared, is declared as the other type, or is a string state validated
/// with a count constraint.
pub open spec fn resolution_error(seg: DynamicSegment, states: Seq<StateDeclaration>) -> Option<Seq<char>> {
    let (unit, name, constraint, capture) = match seg {
        DynamicSegment::Capture { pattern, state_name } => (pattern, state_name, None, true),
        DynamicSegment::Validate { pattern, state_name, constraint } => (pattern, state_name, constraint, false),
        DynamicSegment::Regex { pattern } => (None, pattern, None, true),
    };
    match first_declared(states, name@) {
        None => Some("state '"@ + name@ + "' is not declared"@),
        Some(i) => match (unit, states[i].state_type) {
            (Some(_), StateType::Str { .. }) => Some("state '"@ + name@ + "' is declared as str, but used as count"@),
            (None, StateType::Count { .. }) => Some("state '"@ + name@ + "' is declared as count, but used as str"@),
            (None, StateType::Str { .. }) => if !capture && constraint is Some {
                Some("string validate() does not accept a count constraint"@)
            } else {
                None
            },
            _ => None,
        },
    }
}

/// The error `ensure_no_capturing_groups` gives for an expression that does
/// not parse or has a capturing group.
pub open spec fn capture_free_error(pattern: Seq<char>) -> Seq<char> {
    match regex_syntax_error(pattern) {
        Some(m) => "invalid regex pattern: "@ + m,
        None => "capturing groups are not allowed in dynamic-state patterns; use (?:...)"@,
    }
}

/// Segment `j` is the first regular expression segment that does not parse
/// or has a capturing group.
pub open spec fn first_bad_regex(segs: Seq<DynamicSegment>, j: int) -> bool {
    &&& 0 <= j < segs.len()
    &&& segs[j] is Regex
    &&& !capture_free(segs[j]->Regex_pattern@)
    &&& forall|i: int| 0 <= i < j && #[trigger] segs[i] is Regex ==> capture_free(segs[i]->Regex_pattern@)
}

/// The operation of a capture or validation of a declared state.
pub open spec fn op_of(op: DynamicOp, seg: DynamicSegment, states: Seq<StateDeclaration>) -> bool {
    match first_declared(states, match seg {
        DynamicSegment::Capture { state_name, .. } => state_name@,
        DynamicSegment::Validate { state_name, .. } => state_name@,
        DynamicSegment::Regex { pattern } => pattern@,
    }) {
        None => false,
        Some(i) => {
            let st = states[i];
            match (seg, st.state_type, op) {
                (DynamicSegment::Capture { pattern: Some(u), .. }, StateType::Count { min, max },
                    DynamicOp::CaptureCount { state_index, unit, min: m, max: x }) =>
                    state_index == st.index && unit@ == u@ && m == min && x == max,
                (DynamicSegment::Capture { pattern: None, .. }, StateType::Str { .. }, DynamicOp::CaptureStr { state_index }) =>
                    state_index == st.index,
                (DynamicSegment::Validate { pattern: Some(u), constraint, .. }, StateType::Count { min, max },
                    DynamicOp::ValidateCount { state_index, unit, min: m, max: x, guard }) =>
                    state_index == st.index && unit@ == u@ && m == min && x == max
                    && guard == match constraint { Some(c) => c, None => CompileTimeConstraint::Equals },
                (DynamicSegment::Validate { pattern: None, .. }, StateType::Str { .. }, DynamicOp::ValidateStr { state_index }) =>
                    state_index == st.index,
                _ => false,
            }
        },
    }
}

/// The first declaration of the state `name`, if any.
fn find_state(states: &Vec<StateDeclaration>, name: &String) -> (r: Option<usize>)
    ensures
        r matches Some(i) ==> first_declared(states@, name@) == Some(i as int) && i < states@.len(),
        r is None ==> first_declared(states@, name@) is None,
{
    let mut i: usize = 0;
    while i < states.len()
        invariant
            i <= states@.len(),
            forall|j: int| 0 <= j < i ==> (#[trigger] states@[j]).name@ != name@,
        decreases states.len() - i,
    {
        if states[i].name.eq(name) {
            proof {
                let c = choose|c: int| 0 <= c < states@.len() && states@[c].name@ == name@
                    && forall|j: int| 0 <= j < c ==> (#[trigger] states@[j]).name@ != name@;
                if c > i {
                    assert(states@[i as int].name@ != name@);
                }
            }
            return Some(i);
        }
        i = i + 1;
    }
    None
}

/// The error for a state that is not declared.
fn not_declared(name: &String) -> (msg: String)
    ensures
        msg@ == "state '"@ + name@ + "' is not declared"@,
{
    let mut msg = String::from_str("state '");
    msg.append(name.as_str());
    msg.append("' is not declared");
    msg
}

/// The error for a state used as the other type.
fn type_mismatch(name: &String, declared_str: bool) -> (msg: String)
    ensures
        msg@ == "state '"@ + name@ + (if declared_str {
            "' is declared as str, but used as count"@
        } else {
            "' is declared as count, but used as str"@
        }),
{
    let mut msg = String::from_str("state '");
    msg.append(name.as_str());
    if declared_str {
        msg.append("' is declared as str, but used as count");
    } else {
        msg.append("' is declared as count, but used as str");
    }
    msg
}

/// Resolves a capture or validation against the declared states: its
/// regular expression, the expression of a captured string, and its
/// operation.
#[verifier::rlimit(60)]
pub fn resolve_segment(seg: &DynamicSegment, states: &Vec<StateDeclaration>) -> (r: Result<(String, Option<String>, DynamicOp), String>)
    requires
        is_op_segment(*seg),
    ensures
        resolution(*seg, states@) is None ==> r is Err,
        resolution_error(*seg, states@) matches Some(m) ==> (r matches Err(e) && e@ == m),
        resolution(*seg, states@) matches Some(res) ==> r matches Ok((re, cap, op)) && re@ == res.0
            && (cap is Some <==> res.1 is Some) && (cap is Some ==> cap->0@ == res.1->0)
            && op_of(op, *seg, states@),
{
    let (unit, name, constraint, capture) = match seg {
        DynamicSegment::Capture { pattern, state_name } => (pattern, state_name, &None, true),
        DynamicSegment::Validate { pattern, state_name, constraint } => (pattern, state_name, constraint, false),
        DynamicSegment::Regex { .. } => {
            assert(false);
            return Err(String::new());
        },
    };
    let i = match find_state(states, name) {
        Some(i) => i,
        None => {
            return Err(not_declared(name));
        },
    };
    let st = &states[i];
    match (unit, &st.state_type) {
        (Some(u), StateType::Count { min, max }) => {
            let re = bounded_count_regex(u.as_str(), *min, *max);
            let op = if capture {
                DynamicOp::CaptureCount { state_index: st.index, unit: copy_string(u), min: *min, max: *max }
            } else {
                DynamicOp::ValidateCount {
                    state_index: st.index,
                    unit: copy_string(u),
                    min: *min,
                    max: *max,
                    guard: match constraint {
                        Some(c) => c.duplicate(),
                        None => CompileTimeConstraint::Equals,
                    },
                }
            };
            Ok((re, None, op))
        },
        (None, StateType::Str { pattern }) => {
            if capture {
                Ok((group_regex(pattern.as_str()), Some(copy_string(pattern)), DynamicOp::CaptureStr { state_index: st.index }))
            } else if constraint.is_some() {
                Err(String::from_str("string validate() does not accept a count constraint"))
            } else {
                Ok((group_regex(pattern.as_str()), None, DynamicOp::ValidateStr { state_index: st.index }))
            }
        },
        (Some(_), StateType::Str { .. }) => Err(type_mismatch(name, true)),
        (None, StateType::Count { .. }) => Err(type_mismatch(name, false)),
    }
}


/// The index of the first capturing or validating segment.
pub open spec fn first_op(segs: Seq<DynamicSegment>) -> int {
    choose|i: int| 0 <= i < segs.len() && is_op_segment(segs[i])
        && forall|j: int| 0 <= j < i ==> !is_op_segment(#[trigger] segs[j])
}

proof fn lemma_op_count_zero(segs: Seq<DynamicSegment>, n: int)
    requires
        0 <= n <= segs.len(),
        forall|j: int| 0 <= j < n ==> !is_op_segment(#[trigger] segs[j]),
    ensures
        op_count(segs, n) == 0,
    decreases n,
{
    if n > 0 {
        lemma_op_count_zero(segs, n - 1);
    }
}

/// The regular expressions of the segments `lo..hi`, joined.
pub fn join_regex_segments(segs: &Vec<DynamicSegment>, lo: usize, hi: usize) -> (r: String)
    requires
        lo <= hi <= segs@.len(),
    ensures
        r@ == joined_regex(segs@.subrange(lo as int, hi as int)),
{
    let mut out: Vec<char> = Vec::new();
    let mut i: usize = lo;
    while i < hi
        invariant
            lo <= i <= hi,
            hi <= segs@.len(),
            out@ == joined_regex(segs@.subrange(lo as int, i as int)),
        decreases hi - i,
    {
        let ghost before = out@;
        match &segs[i] {
            DynamicSegment::Regex { pattern } => push_str(&mut out, pattern.as_str()),
            _ => {},
        }
        proof {
            let sub = segs@.subrange(lo as int, i + 1);
            assert(sub.drop_last() =~= segs@.subrange(lo as int, i as int));
            assert(sub.last() == segs@[i as int]);
        }
        i = i + 1;
    }
    chars_to_string(out.as_slice())
}

/// Whether each regular expression segment parses and has no capturing
/// group.
pub open spec fn regex_segments_capture_free(segs: Seq<DynamicSegment>) -> bool {
    forall|j: int| 0 <= j < segs.len() && #[trigger] segs[j] is Regex ==> capture_free(segs[j]->Regex_pattern@)
}

/// Splits a token pattern with one capture or validation into the regular
/// expressions before and after it, and resolves it against the declared
/// states: the full regular expression of the token and its runtime-state
/// pattern. Fails where the pattern has no or several captures and
/// validations, where a regular expression has a capturing group or does not
/// parse, or where the resolution fails.
pub fn build_dynamic_pattern(unresolved: &UnresolvedDynamicPattern, states: &Vec<StateDeclaration>)
    -> (r: Result<(String, CompiledDynamicPattern), String>)
    ensures
        op_count(unresolved.segments@, unresolved.segments@.len() as int) != 1 ==> r is Err,
        op_count(unresolved.segments@, unresolved.segments@.len() as int) == 1
            && resolution(unresolved.segments@[first_op(unresolved.segments@)], states@) is None ==> r is Err,
        op_count(unresolved.segments@, unresolved.segments@.len() as int) == 1
            && resolution(unresolved.segments@[first_op(unresolved.segments@)], states@) is Some
            && (forall|j: int| 0 <= j < unresolved.segments@.len() ==> is_op_segment(#[trigger] unresolved.segments@[j]))
            ==> r is Ok,
        r is Ok <==> {
            &&& op_count(unresolved.segments@, unresolved.segments@.len() as int) == 1
            &&& regex_segments_capture_free(unresolved.segments@)
            &&& resolution(unresolved.segments@[first_op(unresolved.segments@)], states@) is Some
        },
        op_count(unresolved.segments@, unresolved.segments@.len() as int) != 1 ==> (r matches Err(e)
            && e@ == "exactly one capture() or validate() is required in a dynamic-state token"@),
        forall|j: int| op_count(unresolved.segments@, unresolved.segments@.len() as int) == 1
            && #[trigger] first_bad_regex(unresolved.segments@, j)
            ==> (r matches Err(e) && e@ == capture_free_error(unresolved.segments@[j]->Regex_pattern@)),
        (op_count(unresolved.segments@, unresolved.segments@.len() as int) == 1
            && regex_segments_capture_free(unresolved.segments@)
            && resolution_error(unresolved.segments@[first_op(unresolved.segments@)], states@) is Some)
            ==> (r matches Err(e)
                && e@ == resolution_error(unresolved.segments@[first_op(unresolved.segments@)], states@)->0),
        r matches Ok((full, c)) ==> {
            let segs = unresolved.segments@;
            let pos = first_op(segs);
            &&& op_count(segs, segs.len() as int) == 1
            &&& 0 <= pos < segs.len()
            &&& c.prefix_regex@ == joined_regex(segs.subrange(0, pos))
            &&& c.suffix_regex@ == joined_regex(segs.subrange(pos + 1, segs.len() as int))
            &&& resolution(segs[pos], states@) matches Some(res)
            &&& full@ == c.prefix_regex@ + res.0 + c.suffix_regex@
            &&& (c.capture_regex is Some <==> res.1 is Some)
            &&& (c.capture_regex is Some ==> c.capture_regex->0@ == res.1->0)
            &&& op_of(c.op, segs[pos], states@)
        },
{
    let segs = &unresolved.segments;
    let ghost sv = segs@;
    let mut count: usize = 0;
    let mut pos: usize = 0;
    let mut i: usize = 0;
    while i < segs.len()
        invariant
            i <= sv.len(),
            sv == segs@,
            count == op_count(sv, i as int),
            count <= i,
            count == 0 ==> forall|j: int| 0 <= j < i ==> !is_op_segment(#[trigger] sv[j]),
            count > 0 ==> pos < i && is_op_segment(sv[pos as int]) && forall|j: int| 0 <= j < pos ==> !is_op_segment(#[trigger] sv[j]),
        decreases segs.len() - i,
    {
        match &segs[i] {
            DynamicSegment::Regex { .. } => {},
            _ => {
                if count == 0 {
                    pos = i;
                }
                count = count + 1;
            },
        }
        i = i + 1;
    }
    if count != 1 {
        return Err(String::from_str("exactly one capture() or validate() is required in a dynamic-state token"));
    }
    proof {
        assert(first_op(sv) == pos as int) by {
            let c = first_op(sv);
            assert(0 <= pos < sv.len() && is_op_segment(sv[pos as int]) && forall|j: int| 0 <= j < pos ==> !is_op_segment(#[trigger] sv[j]));
            if c < pos {
                assert(!is_op_segment(sv[c]));
            } else if c > pos {
                assert(!is_op_segment(sv[pos as int]));
            }
        }
    }
    let ghost all_ops = forall|j: int| 0 <= j < sv.len() ==> is_op_segment(#[trigger] sv[j]);
    let mut k: usize = 0;
    while k < segs.len()
        invariant
            k <= sv.len(),
            sv == segs@,
            all_ops == forall|j: int| 0 <= j < sv.len() ==> is_op_segment(#[trigger] sv[j]),
            sv == unresolved.segments@,
            forall|j: int| 0 <= j < k && #[trigger] sv[j] is Regex ==> capture_free(sv[j]->Regex_pattern@),
            op_count(sv, sv.len() as int) == 1,
        decreases segs.len() - k,
    {
        match &segs[k] {
            DynamicSegment::Regex { pattern } => {
                assert(!is_op_segment(sv[k as int]));
                match ensure_no_capturing_groups(pattern.as_str()) {
                    Ok(()) => {},
                    Err(e) => {
                        return Err(e);
                    },
                }
            },
            _ => {},
        }
        k = k + 1;
    }
    let prefix_regex = join_regex_segments(segs, 0, pos);
    let suffix_regex = join_regex_segments(segs, pos + 1, segs.len());
    let (segment_regex, capture_regex, op) = match resolve_segment(&segs[pos], states) {
        Ok(t) => t,
        Err(e) => {
            return Err(e);
        },
    };
    let mut full: Vec<char> = Vec::new();
    push_str(&mut full, prefix_regex.as_str());
    push_str(&mut full, segment_regex.as_str());
    push_str(&mut full, suffix_regex.as_str());
    let full = chars_to_string(full.as_slice());
    Ok((full, CompiledDynamicPattern { op, prefix_regex, suffix_regex, capture_regex }))
}

impl CompiledDynamicPattern {
    /// The regular expressions before and after the operation, and that of a
    /// captured string, if any.
    pub fn subpatterns(&self) -> (r: Vec<String>)
        ensures
            r@.len() == if self.capture_regex is Some { 3nat } else { 2nat },
            r@[0]@ == self.prefix_regex@,
            r@[1]@ == self.suffix_regex@,
            self.capture_regex is Some ==> r@[2]@ == self.capture_regex->0@,
    {
        let mut r: Vec<String> = Vec::new();
        r.push(copy_string(&self.prefix_regex));
        r.push(copy_string(&self.suffix_regex));
        match &self.capture_regex {
            Some(c) => r.push(copy_string(c)),
            None => {},
        }
        r
    }
}

} // verus!
