//! The scanner description: its name, runtime-state declarations and modes
//! with transitions by mode name, and their resolution into scanner modes with
//! transitions by mode number.
use vstd::prelude::*;
use vstd::string::StringExecFns;
use crate::dynamic::{
    build_dynamic_pattern, first_op, joined_regex, op_count, regex_segments_capture_free, resolution, StateDeclaration,
};
use crate::pattern::{pattern_same, Pattern, PatternDynamic};
use crate::scanner_mode::ScannerMode;

verus! {

/// A mode transition by mode number, triggered by a token type.
#[derive(PartialEq, Eq, Structural)]
pub enum TransitionToNumericMode {
    /// On the token type (first), enter the mode (second).
    SetMode(usize, usize),
    /// On the token type (first), push the current mode and enter the mode (second).
    PushMode(usize, usize),
    /// On the token type, return to the most recently pushed mode.
    PopMode(usize),
}

impl TransitionToNumericMode {
    pub open spec fn spec_token_type(self) -> usize {
        match self {
            TransitionToNumericMode::SetMode(t, _) => t,
            TransitionToNumericMode::PushMode(t, _) => t,
            TransitionToNumericMode::PopMode(t) => t,
        }
    }

    /// The token type that triggers the transition.
    pub fn token_type(&self) -> (t: usize)
        ensures
            t == self.spec_token_type(),
    {
        match self {
            TransitionToNumericMode::SetMode(t, _) => *t,
            TransitionToNumericMode::PushMode(t, _) => *t,
            TransitionToNumericMode::PopMode(t) => *t,
        }
    }
}

/// A mode transition by mode name, triggered by a token type.
pub enum TransitionToNamedMode {
    SetMode(usize, String),
    PushMode(usize, String),
    PopMode(usize),
}

/// A scanner mode as described: its name, patterns in order of priority and
/// transitions by mode name.
pub struct ScannerModeWithNamedTransitions {
    pub name: String,
    pub patterns: Vec<Pattern>,
    pub transitions: Vec<TransitionToNamedMode>,
}

/// A scanner description.
pub struct ScannerData {
    pub name: String,
    pub states: Vec<StateDeclaration>,
    pub modes: Vec<ScannerModeWithNamedTransitions>,
}

/// The index of the first name equal to `target`.
pub open spec fn first_index_of(names: Seq<Seq<char>>, target: Seq<char>) -> Option<int> {
    if exists|i: int| 0 <= i < names.len() && names[i] == target {
        Some(choose|i: int| 0 <= i < names.len() && names[i] == target
            && forall|j: int| 0 <= j < i ==> names[j] != target)
    } else {
        None
    }
}

/// Where some of the first `n` names equals `target`, there is a first one.
proof fn lemma_first_exists(names: Seq<Seq<char>>, target: Seq<char>, n: int)
    requires
        0 <= n <= names.len(),
        exists|i: int| 0 <= i < n && names[i] == target,
    ensures
        exists|c: int| 0 <= c < names.len() && names[c] == target && forall|j: int| 0 <= j < c ==> names[j] != target,
    decreases n,
{
    if exists|i: int| 0 <= i < n - 1 && names[i] == target {
        lemma_first_exists(names, target, n - 1);
    } else {
        assert(names[n - 1] == target);
        assert(forall|j: int| 0 <= j < n - 1 ==> names[j] != target);
    }
}

/// The index of the first name equal to `target` is that of a name equal to it.
pub proof fn lemma_first_index_in_range(names: Seq<Seq<char>>, target: Seq<char>)
    ensures
        first_index_of(names, target) matches Some(i) ==> 0 <= i < names.len() && names[i] == target,
{
    if exists|i: int| 0 <= i < names.len() && names[i] == target {
        lemma_first_exists(names, target, names.len() as int);
    }
}

/// The views of a sequence of strings.
pub open spec fn string_views(v: Seq<String>) -> Seq<Seq<char>> {
    v.map_values(|s: String| s@)
}

/// The error for a transition to a mode name that no mode has.
pub open spec fn missing_mode_error(name: Seq<char>) -> Seq<char> {
    "scanner mode '"@ + name + "' not found"@
}

/// The mode name a transition leads to; none for a pop.
pub open spec fn target_name(t: TransitionToNamedMode) -> Seq<char> {
    match t {
        TransitionToNamedMode::SetMode(_, n) => n@,
        TransitionToNamedMode::PushMode(_, n) => n@,
        TransitionToNamedMode::PopMode(_) => Seq::empty(),
    }
}

/// The mode number of a mode name: the index of its first occurrence among
/// the names; an error where no mode has the name.
pub fn resolve_mode(scanner_names: &Vec<String>, target: &String) -> (r: Result<usize, String>)
    ensures
        r matches Ok(i) ==> first_index_of(string_views(scanner_names@), target@) == Some(i as int),
        r is Err <==> first_index_of(string_views(scanner_names@), target@) is None,
        r matches Err(e) ==> e@ == missing_mode_error(target@),
{
    let ghost names = string_views(scanner_names@);
    let mut i: usize = 0;
    while i < scanner_names.len()
        invariant
            i <= scanner_names@.len(),
            names == string_views(scanner_names@),
            forall|j: int| 0 <= j < i ==> names[j] != target@,
        decreases scanner_names.len() - i,
    {
        if scanner_names[i].eq(target) {
            assert(names[i as int] == target@);
            assert(first_index_of(names, target@) == Some(i as int)) by {
                let c = choose|c: int| 0 <= c < names.len() && names[c] == target@
                    && forall|j: int| 0 <= j < c ==> names[j] != target@;
                if c < i {
                } else if c > i {
                    assert(names[i as int] != target@);
                }
            }
            return Ok(i);
        }
        i = i + 1;
    }
    let mut msg = String::from_str("scanner mode '");
    msg.append(target.as_str());
    msg.append("' not found");
    assert(msg@ =~= missing_mode_error(target@));
    Err(msg)
}


/// `x` inserted into `sorted` after every transition whose token type is not
/// greater: the step of a stable insertion sort by token type.
pub open spec fn insert_by_type(sorted: Seq<TransitionToNumericMode>, x: TransitionToNumericMode) -> Seq<TransitionToNumericMode>
    decreases sorted.len(),
{
    if sorted.len() == 0 {
        seq![x]
    } else if sorted.last().spec_token_type() <= x.spec_token_type() {
        sorted.push(x)
    } else {
        insert_by_type(sorted.drop_last(), x).push(sorted.last())
    }
}

/// The transitions stably sorted by token type.
pub open spec fn sort_by_type(s: Seq<TransitionToNumericMode>) -> Seq<TransitionToNumericMode>
    decreases s.len(),
{
    if s.len() == 0 {
        Seq::empty()
    } else {
        insert_by_type(sort_by_type(s.drop_last()), s.last())
    }
}

/// Transitions in order of their token types.
pub open spec fn sorted_by_type(s: Seq<TransitionToNumericMode>) -> bool {
    forall|i: int, j: int| 0 <= i < j < s.len() ==> (#[trigger] s[i]).spec_token_type() <= (#[trigger] s[j]).spec_token_type()
}

#[verifier::spinoff_prover]
proof fn lemma_insert_sorted(sorted: Seq<TransitionToNumericMode>, x: TransitionToNumericMode)
    requires
        sorted_by_type(sorted),
    ensures
        sorted_by_type(insert_by_type(sorted, x)),
        insert_by_type(sorted, x).len() == sorted.len() + 1,
        forall|y: TransitionToNumericMode| insert_by_type(sorted, x).contains(y) <==> (sorted.contains(y) || y == x),
    decreases sorted.len(),
{
    let r = insert_by_type(sorted, x);
    if sorted.len() == 0 {
        assert forall|y: TransitionToNumericMode| r.contains(y) <==> (sorted.contains(y) || y == x) by {
            if r.contains(y) {
                let k = choose|k: int| 0 <= k < r.len() && r[k] == y;
            }
            if y == x {
                assert(r[0] == x);
            }
        }
    } else if sorted.last().spec_token_type() <= x.spec_token_type() {
        assert forall|y: TransitionToNumericMode| r.contains(y) <==> (sorted.contains(y) || y == x) by {
            if r.contains(y) {
                let k = choose|k: int| 0 <= k < r.len() && r[k] == y;
                if k < sorted.len() {
                    assert(sorted[k] == y);
                }
            }
            if sorted.contains(y) {
                let k = choose|k: int| 0 <= k < sorted.len() && sorted[k] == y;
                assert(r[k] == y);
            }
            if y == x {
                assert(r[sorted.len() as int] == x);
            }
        }
    } else {
        let init = sorted.drop_last();
        assert(sorted_by_type(init));
        lemma_insert_sorted(init, x);
        let mid = insert_by_type(init, x);
        assert(r == mid.push(sorted.last()));
        assert forall|i: int, j: int| 0 <= i < j < r.len() implies (#[trigger] r[i]).spec_token_type() <= (#[trigger] r[j]).spec_token_type() by {
            if j == r.len() - 1 {
                assert(r[j] == sorted.last());
                assert(mid.contains(r[i]));
                if init.contains(r[i]) {
                    let k = choose|k: int| 0 <= k < init.len() && init[k] == r[i];
                    assert(sorted[k] == r[i]);
                }
            } else {
                assert(r[i] == mid[i] && r[j] == mid[j]);
            }
        }
        assert forall|y: TransitionToNumericMode| r.contains(y) <==> (sorted.contains(y) || y == x) by {
            if r.contains(y) {
                let k = choose|k: int| 0 <= k < r.len() && r[k] == y;
                if k < mid.len() {
                    assert(r[k] == mid[k]);
                    assert(mid[k] == y);
                    assert(mid.contains(y));
                    if init.contains(y) {
                        let w = choose|w: int| 0 <= w < init.len() && init[w] == y;
                        assert(sorted[w] == y);
                    }
                } else {
                    assert(y == sorted.last());
                    assert(sorted[sorted.len() - 1] == y);
                }
            }
            if sorted.contains(y) {
                let k = choose|k: int| 0 <= k < sorted.len() && sorted[k] == y;
                if k < sorted.len() - 1 {
                    assert(init[k] == y);
                    assert(init.contains(y));
                    assert(insert_by_type(init, x).contains(y));
                    assert(mid.contains(y));
                    let w = choose|w: int| 0 <= w < mid.len() && mid[w] == y;
                    assert(r[w] == y);
                } else {
                    assert(r[r.len() - 1] == y);
                }
            }
            if y == x {
                assert(insert_by_type(init, x).contains(x));
                assert(mid.contains(x));
                let w = choose|w: int| 0 <= w < mid.len() && mid[w] == x;
                assert(r[w] == x);
            }
        }
    }
}

proof fn lemma_sort_sorted(s: Seq<TransitionToNumericMode>)
    ensures
        sorted_by_type(sort_by_type(s)),
        sort_by_type(s).len() == s.len(),
    decreases s.len(),
{
    if s.len() > 0 {
        lemma_sort_sorted(s.drop_last());
        lemma_insert_sorted(sort_by_type(s.drop_last()), s.last());
    }
}

/// Sorting by token type orders the transitions and keeps exactly the same
/// transitions.
#[verifier::spinoff_prover]
pub proof fn lemma_sort_by_type_contents(s: Seq<TransitionToNumericMode>)
    ensures
        sorted_by_type(sort_by_type(s)),
        sort_by_type(s).len() == s.len(),
        forall|y: TransitionToNumericMode| #[trigger] sort_by_type(s).contains(y) <==> s.contains(y),
    decreases s.len(),
{
    if s.len() > 0 {
        let init = s.drop_last();
        lemma_sort_by_type_contents(init);
        lemma_insert_sorted(sort_by_type(init), s.last());
        assert forall|y: TransitionToNumericMode| #[trigger] sort_by_type(s).contains(y) <==> s.contains(y) by {
            if s.contains(y) {
                let k = choose|k: int| 0 <= k < s.len() && s[k] == y;
                if k < init.len() {
                    assert(init[k] == y);
                    assert(init.contains(y));
                    assert(sort_by_type(init).contains(y));
                }
            }
            if init.contains(y) {
                let k = choose|k: int| 0 <= k < init.len() && init[k] == y;
                assert(s[k] == y);
            }
            if y == s.last() {
                assert(s[s.len() - 1] == y);
            }
        }
    } else {
        assert forall|y: TransitionToNumericMode| #[trigger] sort_by_type(s).contains(y) <==> s.contains(y) by {}
    }
}

/// Inserts `x` after every transition whose token type is not greater.
fn insert_transition(v: &mut Vec<TransitionToNumericMode>, x: TransitionToNumericMode)
    ensures
        final(v)@ == insert_by_type(old(v)@, x),
    decreases old(v)@.len(),
{
    if v.len() == 0 || v[v.len() - 1].token_type() <= x.token_type() {
        v.push(x);
    } else {
        let last = v.pop().unwrap();
        insert_transition(v, x);
        v.push(last);
    }
}

/// The numeric transition of a named one: the mode name resolved to its
/// number.
pub open spec fn numeric_of(t: TransitionToNamedMode, names: Seq<Seq<char>>) -> Option<TransitionToNumericMode> {
    match t {
        TransitionToNamedMode::SetMode(tt, name) => match first_index_of(names, name@) {
            Some(i) => Some(TransitionToNumericMode::SetMode(tt, i as usize)),
            None => None,
        },
        TransitionToNamedMode::PushMode(tt, name) => match first_index_of(names, name@) {
            Some(i) => Some(TransitionToNumericMode::PushMode(tt, i as usize)),
            None => None,
        },
        TransitionToNamedMode::PopMode(tt) => Some(TransitionToNumericMode::PopMode(tt)),
    }
}

/// Whether all transitions name modes.
pub open spec fn all_resolve(ts: Seq<TransitionToNamedMode>, names: Seq<Seq<char>>) -> bool {
    forall|k: int| 0 <= k < ts.len() ==> #[trigger] numeric_of(ts[k], names) is Some
}

impl ScannerModeWithNamedTransitions {
    /// The transitions with the mode names resolved to numbers, stably sorted
    /// by token type; an error where a mode name is unknown.
    pub fn convert_transitions(&self, scanner_names: &Vec<String>) -> (r: Result<Vec<TransitionToNumericMode>, String>)
        ensures
            r is Ok <==> all_resolve(self.transitions@, string_views(scanner_names@)),
            r matches Ok(v) ==> v@ == sort_by_type(self.transitions@.map_values(
                |t: TransitionToNamedMode| numeric_of(t, string_views(scanner_names@))->0)),
            r matches Ok(v) ==> sorted_by_type(v@),
            r matches Err(e) ==> exists|k: int| 0 <= k < self.transitions@.len()
                && numeric_of(#[trigger] self.transitions@[k], string_views(scanner_names@)) is None
                && (forall|j: int| 0 <= j < k ==> numeric_of(#[trigger] self.transitions@[j], string_views(scanner_names@)) is Some)
                && e@ == missing_mode_error(target_name(self.transitions@[k])),
    {
        let ghost names = string_views(scanner_names@);
        let ghost mapped = self.transitions@.map_values(|t: TransitionToNamedMode| numeric_of(t, names)->0);
        let mut out: Vec<TransitionToNumericMode> = Vec::new();
        let mut k: usize = 0;
        while k < self.transitions.len()
            invariant
                k <= self.transitions@.len(),
                names == string_views(scanner_names@),
                mapped == self.transitions@.map_values(|t: TransitionToNamedMode| numeric_of(t, names)->0),
                forall|u: int| 0 <= u < k ==> #[trigger] numeric_of(self.transitions@[u], names) is Some,
                out@ == sort_by_type(mapped.take(k as int)),
            decreases self.transitions.len() - k,
        {
            let t = match &self.transitions[k] {
                TransitionToNamedMode::SetMode(tt, name) => match resolve_mode(scanner_names, name) {
                    Ok(i) => TransitionToNumericMode::SetMode(*tt, i),
                    Err(e) => {
                        return Err(e);
                    },
                },
                TransitionToNamedMode::PushMode(tt, name) => match resolve_mode(scanner_names, name) {
                    Ok(i) => TransitionToNumericMode::PushMode(*tt, i),
                    Err(e) => {
                        return Err(e);
                    },
                },
                TransitionToNamedMode::PopMode(tt) => TransitionToNumericMode::PopMode(*tt),
            };
            assert(numeric_of(self.transitions@[k as int], names) == Some(t));
            insert_transition(&mut out, t);
            proof {
                assert(mapped.take(k + 1).drop_last() =~= mapped.take(k as int));
                assert(mapped.take(k + 1).last() == t);
            }
            k = k + 1;
        }
        proof {
            assert(mapped.take(mapped.len() as int) =~= mapped);
            lemma_sort_sorted(mapped);
        }
        Ok(out)
    }
}


/// Whether the runtime-state segments of a pattern, where it has any,
/// resolve against the declared states: exactly one capture or validation, no
/// capturing group in the expressions around it, and its state declared with
/// the matching type.
pub open spec fn segments_resolve(p: Pattern, states: Seq<StateDeclaration>) -> bool {
    p.dynamic matches Some(PatternDynamic::Unresolved(u)) ==> {
        let segs = u.segments@;
        &&& op_count(segs, segs.len() as int) == 1
        &&& regex_segments_capture_free(segs)
        &&& resolution(segs[first_op(segs)], states) is Some
    }
}

/// The expression of a pattern once its runtime-state segments are resolved:
/// the expressions before the operation, the operation's own, and those after
/// it; the pattern's own expression where it has no segments.
pub open spec fn resolved_expression(p: Pattern, states: Seq<StateDeclaration>) -> Seq<char> {
    match p.dynamic {
        Some(PatternDynamic::Unresolved(u)) => {
            let segs = u.segments@;
            let pos = first_op(segs);
            joined_regex(segs.subrange(0, pos)) + (resolution(segs[pos], states)->0).0
                + joined_regex(segs.subrange(pos + 1, segs.len() as int))
        },
        _ => p.pattern@,
    }
}

/// `p` is the pattern `q` with its runtime-state segments resolved: its
/// expression is the resolved one and, where `q` has segments, its resolved
/// part holds the expressions before and after the operation and the
/// expression of a captured string.
pub open spec fn resolved_as(q: Pattern, p: Pattern, states: Seq<StateDeclaration>) -> bool {
    &&& p.pattern@ == resolved_expression(q, states)
    &&& q.dynamic matches Some(PatternDynamic::Unresolved(u)) ==> {
        let segs = u.segments@;
        let pos = first_op(segs);
        let res = resolution(segs[pos], states)->0;
        &&& p.dynamic matches Some(PatternDynamic::Compiled(c))
        &&& c.prefix_regex@ == joined_regex(segs.subrange(0, pos))
        &&& c.suffix_regex@ == joined_regex(segs.subrange(pos + 1, segs.len() as int))
        &&& (c.capture_regex is Some <==> res.1 is Some)
        &&& (c.capture_regex is Some ==> c.capture_regex->0@ == res.1->0)
    }
}

impl ScannerData {
    /// The pattern with its runtime-state segments resolved against the
    /// declared states: its expression becomes the full expression of the
    /// segments. A pattern without segments stays as it is.
    pub fn resolve_dynamic_pattern(&self, pattern: &Pattern) -> (r: Result<Pattern, String>)
        ensures
            !(pattern.dynamic matches Some(PatternDynamic::Unresolved(_))) ==> r is Ok,
            !(pattern.dynamic matches Some(PatternDynamic::Unresolved(_))) && r is Ok ==> pattern_same(r->Ok_0, *pattern),
            r matches Ok(p) ==> p.terminal_type == pattern.terminal_type && p.priority == pattern.priority
                && crate::pattern::lookahead_same(p.lookahead, pattern.lookahead),
            r matches Ok(p) ==> !(p.dynamic matches Some(PatternDynamic::Unresolved(_))),
            r is Ok <==> segments_resolve(*pattern, self.states@),
            r matches Ok(p) ==> resolved_as(*pattern, p, self.states@),
    {
        match pattern.unresolved() {
            None => Ok(pattern.duplicate()),
            Some(unresolved) => {
                let (regex, dynamic) = match build_dynamic_pattern(unresolved, &self.states) {
                    Ok(t) => t,
                    Err(e) => {
                        return Err(e);
                    },
                };
                let resolved = Pattern {
                    pattern: regex,
                    terminal_type: pattern.terminal_type,
                    priority: pattern.priority,
                    lookahead: pattern.lookahead.duplicate(),
                    dynamic: None,
                };
                Ok(resolved.with_dynamic(dynamic))
            },
        }
    }

    /// The names of the modes, in order.
    pub fn mode_names(&self) -> (r: Vec<String>)
        ensures
            string_views(r@) == self.modes@.map_values(|m: ScannerModeWithNamedTransitions| m.name@),
    {
        let mut r: Vec<String> = Vec::new();
        let mut i: usize = 0;
        while i < self.modes.len()
            invariant
                i <= self.modes@.len(),
                r@.len() == i,
                forall|k: int| 0 <= k < i ==> (#[trigger] r@[k])@ == self.modes@[k].name@,
            decreases self.modes.len() - i,
        {
            r.push(self.modes[i].name.clone());
            i = i + 1;
        }
        assert(string_views(r@) =~= self.modes@.map_values(|m: ScannerModeWithNamedTransitions| m.name@));
        r
    }

    /// The scanner modes: the mode names of the transitions resolved to mode
    /// numbers and the runtime-state segments of the patterns resolved
    /// against the declared states. Fails where a transition names an unknown
    /// mode or a runtime-state segment does not resolve.
    pub fn build_scanner_modes(&self) -> (r: Result<Vec<ScannerMode>, String>)
        ensures
            (forall|i: int| 0 <= i < self.modes@.len() ==> all_resolve((#[trigger] self.modes@[i]).transitions@,
                self.modes@.map_values(|m: ScannerModeWithNamedTransitions| m.name@)))
                && (forall|i: int, k: int| 0 <= i < self.modes@.len() && 0 <= k < self.modes@[i].patterns@.len()
                ==> segments_resolve(#[trigger] self.modes@[i].patterns@[k], self.states@)) ==> r is Ok,
            (exists|i: int| 0 <= i < self.modes@.len() && !all_resolve((#[trigger] self.modes@[i]).transitions@,
                self.modes@.map_values(|m: ScannerModeWithNamedTransitions| m.name@))) ==> r is Err,
            r matches Ok(ms) ==> {
                let names = self.modes@.map_values(|m: ScannerModeWithNamedTransitions| m.name@);
                &&& ms@.len() == self.modes@.len()
                &&& forall|i: int| 0 <= i < ms@.len() ==> {
                    &&& (#[trigger] ms@[i]).name@ == self.modes@[i].name@
                    &&& ms@[i].transitions@ == sort_by_type(self.modes@[i].transitions@.map_values(
                        |t: TransitionToNamedMode| numeric_of(t, names)->0))
                    &&& ms@[i].patterns@.len() == self.modes@[i].patterns@.len()
                    &&& forall|k: int| 0 <= k < ms@[i].patterns@.len() ==> {
                        let p = #[trigger] ms@[i].patterns@[k];
                        let q = self.modes@[i].patterns@[k];
                        &&& p.terminal_type == q.terminal_type
                        &&& p.priority == q.priority
                        &&& crate::pattern::lookahead_same(p.lookahead, q.lookahead)
                        &&& !(q.dynamic matches Some(PatternDynamic::Unresolved(_))) ==> pattern_same(p, q)
                        &&& !(p.dynamic matches Some(PatternDynamic::Unresolved(_)))
                        &&& resolved_as(q, p, self.states@)
                    }
                }
            },
    {
        let names = self.mode_names();
        let ghost nv = self.modes@.map_values(|m: ScannerModeWithNamedTransitions| m.name@);
        let ghost owed = (forall|i: int| 0 <= i < self.modes@.len() ==> all_resolve((#[trigger] self.modes@[i]).transitions@, nv))
            && (forall|i: int, k: int| 0 <= i < self.modes@.len() && 0 <= k < self.modes@[i].patterns@.len()
                ==> segments_resolve(#[trigger] self.modes@[i].patterns@[k], self.states@));
        let mut modes: Vec<ScannerMode> = Vec::new();
        let mut i: usize = 0;
        while i < self.modes.len()
            invariant
                i <= self.modes@.len(),
                string_views(names@) == nv,
                nv == self.modes@.map_values(|m: ScannerModeWithNamedTransitions| m.name@),
                forall|u: int| 0 <= u < i ==> all_resolve((#[trigger] self.modes@[u]).transitions@, nv),
                owed == ((forall|u: int| 0 <= u < self.modes@.len() ==> all_resolve((#[trigger] self.modes@[u]).transitions@, nv))
                    && (forall|i: int, k: int| 0 <= i < self.modes@.len() && 0 <= k < self.modes@[i].patterns@.len()
                        ==> segments_resolve(#[trigger] self.modes@[i].patterns@[k], self.states@))),
                modes@.len() == i,
                forall|u: int| 0 <= u < i ==> {
                    &&& (#[trigger] modes@[u]).name@ == self.modes@[u].name@
                    &&& modes@[u].transitions@ == sort_by_type(self.modes@[u].transitions@.map_values(
                        |t: TransitionToNamedMode| numeric_of(t, nv)->0))
                    &&& modes@[u].patterns@.len() == self.modes@[u].patterns@.len()
                    &&& forall|k: int| 0 <= k < modes@[u].patterns@.len() ==> {
                        let p = #[trigger] modes@[u].patterns@[k];
                        let q = self.modes@[u].patterns@[k];
                        &&& p.terminal_type == q.terminal_type
                        &&& p.priority == q.priority
                        &&& crate::pattern::lookahead_same(p.lookahead, q.lookahead)
                        &&& !(q.dynamic matches Some(PatternDynamic::Unresolved(_))) ==> pattern_same(p, q)
                        &&& !(p.dynamic matches Some(PatternDynamic::Unresolved(_)))
                        &&& resolved_as(q, p, self.states@)
                    }
                },
            decreases self.modes.len() - i,
        {
            let mode = &self.modes[i];
            proof {
                if owed {
                    assert forall|u: int| 0 <= u < mode.patterns@.len()
                        implies segments_resolve(#[trigger] mode.patterns@[u], self.states@) by {
                        assert(segments_resolve(self.modes@[i as int].patterns@[u], self.states@));
                    }
                }
            }
            let transitions = match mode.convert_transitions(&names) {
                Ok(t) => t,
                Err(e) => {
                    return Err(e);
                },
            };
            let mut patterns: Vec<Pattern> = Vec::new();
            let mut k: usize = 0;
            while k < mode.patterns.len()
                invariant
                    k <= mode.patterns@.len(),
                    owed == ((forall|u: int| 0 <= u < self.modes@.len() ==> all_resolve((#[trigger] self.modes@[u]).transitions@, nv))
                        && (forall|i: int, k: int| 0 <= i < self.modes@.len() && 0 <= k < self.modes@[i].patterns@.len()
                            ==> segments_resolve(#[trigger] self.modes@[i].patterns@[k], self.states@))),
                    nv == self.modes@.map_values(|m: ScannerModeWithNamedTransitions| m.name@),
                    owed ==> forall|u: int| 0 <= u < mode.patterns@.len()
                        ==> segments_resolve(#[trigger] mode.patterns@[u], self.states@),
                    patterns@.len() == k,
                    forall|u: int| 0 <= u < k ==> {
                        let p = #[trigger] patterns@[u];
                        let q = mode.patterns@[u];
                        &&& p.terminal_type == q.terminal_type
                        &&& p.priority == q.priority
                        &&& crate::pattern::lookahead_same(p.lookahead, q.lookahead)
                        &&& !(q.dynamic matches Some(PatternDynamic::Unresolved(_))) ==> pattern_same(p, q)
                        &&& !(p.dynamic matches Some(PatternDynamic::Unresolved(_)))
                        &&& resolved_as(q, p, self.states@)
                    },
                decreases mode.patterns.len() - k,
            {
                let p = match self.resolve_dynamic_pattern(&mode.patterns[k]) {
                    Ok(p) => p,
                    Err(e) => {
                        return Err(e);
                    },
                };
                patterns.push(p);
                k = k + 1;
            }
            modes.push(ScannerMode::new(&mode.name, patterns, transitions));
            i = i + 1;
        }
        Ok(modes)
    }
}

} // verus!
