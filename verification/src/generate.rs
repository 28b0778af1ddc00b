//! The scanner generator's pipeline: from a scanner description to the modes,
//! DFAs and character classification that a scanner runs on.
use vstd::prelude::*;
use vstd::string::StringExecFns;
use crate::character_classes::{fresh_classes, CharacterClasses};
use crate::class_table::CharClassTable;
use crate::dfa::{dfa_groups_below, lemma_converted_groups_below, lemma_minimal_dfa_bounds, nfa_groups_below, rows_sorted, Dfa};
use crate::dfa_sim::dfa_wf;
use crate::dynamic::{copy_string, CompileTimeConstraint, CompileTimeExpr, CompiledDynamicPattern};
use crate::minimizer::dfa_ok;
use crate::nfa::{converted, unconverted, Nfa};
use crate::pattern::{Lookahead, Pattern, PatternDynamic, NO_TOKEN_TYPE};
use crate::regex_ast::{regex_syntax_error, regex_tree};
use crate::scanner_data::{
    all_resolve, lemma_first_index_in_range, lemma_sort_by_type_contents, numeric_of, resolved_as, resolved_expression,
    segments_resolve, sort_by_type, ScannerData, ScannerModeWithNamedTransitions, TransitionToNamedMode,
    TransitionToNumericMode,
};
use crate::scanner_impl::{accept_before, accept_wf, accepts_ordered, modes_wf};
use crate::scanner_mode::ScannerMode;
use crate::text::{chars_to_string, str_to_chars};
use crate::types;

verus! {

/// The characters of the first `n` pieces, one after the other.
pub open spec fn pieces_text(pieces: Seq<&str>, n: int) -> Seq<char>
    decreases n,
{
    if n <= 0 || n > pieces.len() {
        Seq::empty()
    } else {
        pieces_text(pieces, n - 1) + pieces[n - 1]@
    }
}

/// Appends the pieces to `msg`.
fn append_all(msg: &mut String, pieces: &[&str])
    ensures
        final(msg)@ == old(msg)@ + pieces_text(pieces@, pieces@.len() as int),
{
    let mut i: usize = 0;
    while i < pieces.len()
        invariant
            i <= pieces@.len(),
            msg@ == old(msg)@ + pieces_text(pieces@, i as int),
        decreases pieces.len() - i,
    {
        let ghost before = msg@;
        msg.append(pieces[i]);
        assert(msg@ =~= old(msg)@ + pieces_text(pieces@, i + 1));
        i = i + 1;
    }
}

/// Whether `regex_syntax` parses the expression of a lookahead condition;
/// no condition has none to parse.
pub open spec fn lookahead_parses(l: Lookahead) -> bool {
    match l {
        Lookahead::Positive(re) => regex_syntax_error(re@) is None,
        Lookahead::Negative(re) => regex_syntax_error(re@) is None,
        Lookahead::Absent => true,
    }
}

/// Whether `regex_syntax` parses each expression of a resolved runtime-state
/// part: the text before the operation, after it, and a captured string.
pub open spec fn compiled_parses(c: CompiledDynamicPattern) -> bool {
    &&& regex_syntax_error(c.prefix_regex@) is None
    &&& regex_syntax_error(c.suffix_regex@) is None
    &&& (c.capture_regex matches Some(re) ==> regex_syntax_error(re@) is None)
}

/// Whether `regex_syntax` parses the expressions of the resolved
/// runtime-state part of a pattern, if it has one.
pub open spec fn dynamic_parses(p: Pattern) -> bool {
    p.dynamic matches Some(PatternDynamic::Compiled(c)) ==> compiled_parses(c)
}

/// `nfa` is an automaton the library builds for the expression `re`: as many
/// states as the automaton of its tree has, and, for a well-formed tree,
/// exactly its words.
pub open spec fn nfa_of_expression(re: Seq<char>, nfa: Nfa) -> bool {
    &&& nfa.wf()
    &&& unconverted(nfa)
    &&& regex_syntax_error(re) is None
    &&& nfa.states@.len() == crate::nfa::nfa_shape(regex_tree(re)).0
    &&& crate::nfa::well_formed_regex(regex_tree(re)) ==> forall|w: Seq<char>|
        #[trigger] crate::nfa_language::accepts_word(nfa, w) == crate::nfa_language::regex_matches(regex_tree(re), w)
}

/// `d` is the minimal DFA of the expression `re` on the disjoint character
/// classes `cc`: the automaton of `re`, split into the classes, determinized
/// by the subset construction and minimized.
pub open spec fn dfa_of_expression(re: Seq<char>, d: Dfa, cc: CharacterClasses) -> bool {
    exists|nfa: Nfa, split: Nfa, d0: Dfa, sets: Seq<Seq<usize>>, cls: Seq<usize>|
        #[trigger] nfa_of_expression(re, nfa) && #[trigger] disjoint_form(nfa, split, cc)
        && #[trigger] crate::dfa::subset_construction(split, d0, sets) && #[trigger] crate::minimizer::quotient(d0, d, cls)
}

/// `rt` is the scanner form of the minimal DFA of the expression `re` on the
/// disjoint character classes `cc`.
pub open spec fn runtime_dfa_of_expression(re: Seq<char>, rt: types::Dfa, cc: CharacterClasses) -> bool {
    exists|d: Dfa| #[trigger] dfa_of_expression(re, d, cc) && runtime_dfa_of(d, rt, cc.intervals@.len())
}

/// Whether the subset construction can count the sets of states of every
/// automaton of `k` states: none has as many distinct sets as a `usize` can
/// number.
pub open spec fn subsets_fit(k: nat) -> bool {
    forall|nfa: Nfa| nfa.states@.len() == k ==> !#[trigger] crate::dfa::too_many_sets(nfa)
}

/// Whether the DFA of the expression `re` can be compiled: its automaton
/// builds and its sets of states can be counted.
pub open spec fn subexpression_compiles(re: Seq<char>) -> bool {
    &&& crate::nfa::expression_builds(re)
    &&& subsets_fit(crate::nfa::nfa_shape(regex_tree(re)).0)
}

/// Whether the DFAs of the lookahead condition and of the resolved
/// runtime-state part of a pattern can be compiled.
pub open spec fn conditions_compile(p: Pattern) -> bool {
    &&& match p.lookahead {
        Lookahead::Positive(re) => subexpression_compiles(re@),
        Lookahead::Negative(re) => subexpression_compiles(re@),
        Lookahead::Absent => true,
    }
    &&& match p.dynamic {
        Some(PatternDynamic::Compiled(c)) => subexpression_compiles(c.prefix_regex@) && subexpression_compiles(c.suffix_regex@)
            && (c.capture_regex matches Some(re) ==> subexpression_compiles(re@)),
        _ => true,
    }
}

/// Whether the automata of the lookahead condition and of the resolved
/// runtime-state part of a pattern can be built.
pub open spec fn conditions_build(p: Pattern) -> bool {
    &&& match p.lookahead {
        Lookahead::Positive(re) => crate::nfa::expression_builds(re@),
        Lookahead::Negative(re) => crate::nfa::expression_builds(re@),
        Lookahead::Absent => true,
    }
    &&& match p.dynamic {
        Some(PatternDynamic::Compiled(c)) => crate::nfa::expression_builds(c.prefix_regex@)
            && crate::nfa::expression_builds(c.suffix_regex@)
            && (c.capture_regex matches Some(re) ==> crate::nfa::expression_builds(re@)),
        _ => true,
    }
}

/// The automaton of the expression of a lookahead condition or of a part of
/// a runtime-state pattern: the expression as a pattern of no token type.
pub fn build_subpattern_nfa(regex: &String, context: &str) -> (r: Result<Nfa, String>)
    ensures
        r matches Ok(n) ==> n.wf() && unconverted(n) && nfa_of_expression(regex@, n),
        r is Ok ==> regex_syntax_error(regex@) is None,
        crate::nfa::expression_builds(regex@) ==> r is Ok,
{
    match Nfa::build(&Pattern::new(copy_string(regex), NO_TOKEN_TYPE)) {
        Ok(n) => Ok(n),
        Err(e) => {
            let mut msg = String::from_str("failed to build ");
            append_all(&mut msg, &[context, " NFA from '", regex.as_str(), "': ", e.as_str()]);
            Err(msg)
        },
    }
}

/// The classes of `before` are the first classes of `after`.
pub open spec fn classes_kept(before: CharacterClasses, after: CharacterClasses) -> bool {
    &&& after.classes@.len() >= before.classes@.len()
    &&& forall|c: int| 0 <= c < before.classes@.len() ==> #[trigger] after.classes@[c] == before.classes@[c]
}

/// Adds the character classes of a subexpression's automaton.
pub fn collect_subpattern_character_classes(regex: &String, character_classes: &mut CharacterClasses, context: &str)
    -> (r: Result<(), String>)
    ensures
        final(character_classes).elementary_intervals@ == old(character_classes).elementary_intervals@,
        final(character_classes).intervals@ == old(character_classes).intervals@,
        fresh_classes(*old(character_classes)) ==> fresh_classes(*final(character_classes)),
        classes_kept(*old(character_classes), *final(character_classes)),
        r is Ok ==> regex_syntax_error(regex@) is None,
        crate::nfa::expression_builds(regex@) ==> r is Ok,
{
    let nfa = match build_subpattern_nfa(regex, context) {
        Ok(n) => n,
        Err(e) => {
            return Err(e);
        },
    };
    nfa.collect_character_classes(character_classes);
    Ok(())
}

/// The DFA of a subexpression on the disjoint character classes: built,
/// split into the disjoint classes, determinized and minimized.
pub fn compile_subpattern(regex: &String, character_classes: &CharacterClasses, context: &str) -> (r: Result<Dfa, String>)
    requires
        character_classes.class_indices_valid(),
    ensures
        r matches Ok(d) ==> dfa_ok(d) && dfa_groups_below(d, character_classes.intervals@.len()) && rows_sorted(d),
        r matches Ok(d) ==> dfa_of_expression(regex@, d, *character_classes),
        r is Ok ==> regex_syntax_error(regex@) is None,
        subexpression_compiles(regex@) ==> r is Ok,
{
    let mut nfa = match build_subpattern_nfa(regex, context) {
        Ok(n) => n,
        Err(e) => {
            return Err(e);
        },
    };
    let ghost before = nfa;
    nfa.convert_to_disjoint_character_classes(character_classes);
    proof {
        lemma_converted_groups_below(before, nfa, *character_classes);
    }
    match Dfa::try_from_nfa(&nfa) {
        Ok(d) => {
            proof {
                let (d0, sets, cls) = choose|d0: Dfa, sets: Seq<Seq<usize>>, cls: Seq<usize>|
                    crate::dfa::subset_construction(nfa, d0, sets) && crate::minimizer::quotient(d0, d, cls);
                lemma_minimal_dfa_bounds(nfa, d0, sets, d, cls, character_classes.intervals@.len());
                assert(disjoint_form(before, nfa, *character_classes));
                assert(nfa_of_expression(regex@, before));
            }
            Ok(d)
        },
        Err(e) => {
            let mut msg = String::from_str("failed to compile ");
            append_all(&mut msg, &[context, " DFA from '", regex.as_str(), "': ", e.as_str()]);
            Err(msg)
        },
    }
}

/// The row of a state's transitions in a scanner: one entry per character
/// class below `n`, holding the target of the transition on that class.
pub open spec fn dense_row(ts: Seq<crate::dfa::DfaTransition>, row: Seq<Option<types::DfaTransition>>, n: nat) -> bool {
    &&& row.len() == n
    &&& forall|c: int| 0 <= c < n ==> match #[trigger] row[c] {
        Some(t) => exists|k: int| 0 <= k < ts.len() && ts[k].elementary_interval_index == c && ts[k].target == t.to,
        None => forall|k: int| 0 <= k < ts.len() ==> (#[trigger] ts[k]).elementary_interval_index != c,
    }
}

/// The transitions of a state as a row of `n` entries.
pub fn dense_transitions(ts: &Vec<crate::dfa::DfaTransition>, n: usize) -> (row: Vec<Option<types::DfaTransition>>)
    requires
        forall|k: int| 0 <= k < ts@.len() ==> (#[trigger] ts@[k]).elementary_interval_index < n,
    ensures
        dense_row(ts@, row@, n as nat),
{
    let mut row: Vec<Option<types::DfaTransition>> = Vec::new();
    let mut c: usize = 0;
    while c < n
        invariant
            c <= n,
            row@.len() == c,
            forall|u: int| 0 <= u < c ==> (#[trigger] row@[u]) is None,
        decreases n - c,
    {
        row.push(None);
        c = c + 1;
    }
    let mut k: usize = 0;
    while k < ts.len()
        invariant
            k <= ts@.len(),
            row@.len() == n,
            forall|j: int| 0 <= j < ts@.len() ==> (#[trigger] ts@[j]).elementary_interval_index < n,
            forall|u: int| 0 <= u < n ==> match #[trigger] row@[u] {
                Some(t) => exists|j: int| 0 <= j < k && ts@[j].elementary_interval_index == u && ts@[j].target == t.to,
                None => forall|j: int| 0 <= j < k ==> (#[trigger] ts@[j]).elementary_interval_index != u,
            },
        decreases ts.len() - k,
    {
        let idx = ts[k].elementary_interval_index;
        let ghost before = row@;
        row.set(idx, Some(types::DfaTransition { to: ts[k].target }));
        proof {
            assert forall|u: int| 0 <= u < n implies match #[trigger] row@[u] {
                Some(t) => exists|j: int| 0 <= j < k + 1 && ts@[j].elementary_interval_index == u && ts@[j].target == t.to,
                None => forall|j: int| 0 <= j < k + 1 ==> (#[trigger] ts@[j]).elementary_interval_index != u,
            } by {
                if u == idx {
                    assert(ts@[k as int].elementary_interval_index == u);
                } else {
                    assert(row@[u] == before[u]);
                }
            }
        }
        k = k + 1;
    }
    row
}

/// `rt` is the scanner form of `gen` with `n` character classes: the same
/// states, each with its transitions as a row of `n` entries and an accept
/// entry of the token type and priority of each pattern it accepts, in order.
pub open spec fn runtime_dfa_of(gen: Dfa, rt: types::Dfa, n: nat) -> bool {
    &&& rt.states@.len() == gen.states@.len()
    &&& forall|s: int| 0 <= s < gen.states@.len() ==> {
        &&& dense_row(gen.states@[s].transitions@, (#[trigger] rt.states@[s]).transitions@, n)
        &&& rt.states@[s].accept_data@.len() == gen.states@[s].accepts@.len()
        &&& forall|j: int| 0 <= j < rt.states@[s].accept_data@.len() ==> {
            &&& (#[trigger] rt.states@[s].accept_data@[j]).token_type == gen.states@[s].accepts@[j].terminal_type
            &&& rt.states@[s].accept_data@[j].priority == gen.states@[s].accepts@[j].priority
        }
    }
}

/// An accept entry without lookahead condition or runtime-state operation.
pub open spec fn plain_accept(a: types::AcceptData) -> bool {
    a.lookahead is Absent && a.dynamic is None
}

/// The scanner form of a subexpression's DFA: its accept entries have no
/// condition and no operation.
pub fn convert_plain_dfa(gen: &Dfa, n: usize) -> (rt: types::Dfa)
    requires
        dfa_ok(*gen),
        dfa_groups_below(*gen, n as nat),
    ensures
        dfa_wf(rt),
        runtime_dfa_of(*gen, rt, n as nat),
        forall|s: int, j: int| 0 <= s < rt.states@.len() && 0 <= j < rt.states@[s].accept_data@.len()
            ==> plain_accept(#[trigger] rt.states@[s].accept_data@[j]),
{
    let mut states: Vec<types::DfaState> = Vec::new();
    let mut s: usize = 0;
    while s < gen.states.len()
        invariant
            s <= gen.states@.len(),
            dfa_ok(*gen),
            dfa_groups_below(*gen, n as nat),
            states@.len() == s,
            forall|u: int| 0 <= u < s ==> {
                &&& dense_row(gen.states@[u].transitions@, (#[trigger] states@[u]).transitions@, n as nat)
                &&& states@[u].accept_data@.len() == gen.states@[u].accepts@.len()
                &&& forall|j: int| 0 <= j < states@[u].accept_data@.len() ==> {
                    &&& (#[trigger] states@[u].accept_data@[j]).token_type == gen.states@[u].accepts@[j].terminal_type
                    &&& states@[u].accept_data@[j].priority == gen.states@[u].accepts@[j].priority
                    &&& plain_accept(states@[u].accept_data@[j])
                }
            },
        decreases gen.states.len() - s,
    {
        let state = &gen.states[s];
        assert forall|k: int| 0 <= k < state.transitions@.len() implies
            (#[trigger] state.transitions@[k]).elementary_interval_index < n by {
            assert(gen.states@[s as int].transitions@[k].elementary_interval_index < n);
        }
        let row = dense_transitions(&state.transitions, n);
        let mut accept_data: Vec<types::AcceptData> = Vec::new();
        let mut j: usize = 0;
        while j < state.accepts.len()
            invariant
                j <= state.accepts@.len(),
                accept_data@.len() == j,
                forall|u: int| 0 <= u < j ==> {
                    &&& (#[trigger] accept_data@[u]).token_type == state.accepts@[u].terminal_type
                    &&& accept_data@[u].priority == state.accepts@[u].priority
                    &&& plain_accept(accept_data@[u])
                },
            decreases state.accepts.len() - j,
        {
            accept_data.push(types::AcceptData {
                token_type: state.accepts[j].terminal_type,
                priority: state.accepts[j].priority,
                lookahead: types::Lookahead::Absent,
                dynamic: None,
            });
            j = j + 1;
        }
        states.push(types::DfaState { transitions: row, accept_data });
        s = s + 1;
    }
    let rt = types::Dfa { states };
    proof {
        assert forall|q: int, k: int|
            #![trigger rt.states@[q].transitions@[k]]
            0 <= q < rt.states@.len() && 0 <= k < rt.states@[q].transitions@.len()
                && rt.states@[q].transitions@[k] is Some implies (rt.states@[q].transitions@[k]->0.to as int) < rt.states@.len() by {
            assert(dense_row(gen.states@[q].transitions@, rt.states@[q].transitions@, n as nat));
            let t = rt.states@[q].transitions@[k]->0;
            let kk = choose|kk: int| 0 <= kk < gen.states@[q].transitions@.len()
                && gen.states@[q].transitions@[kk].elementary_interval_index == k
                && gen.states@[q].transitions@[kk].target == t.to;
            assert(gen.states@[q].transitions@[kk].target < gen.states@.len());
        }
    }
    rt
}

/// The scanner form of a subexpression's DFA.
pub fn compile_subpattern_dfa(regex: &String, character_classes: &CharacterClasses, context: &str)
    -> (r: Result<types::Dfa, String>)
    requires
        character_classes.class_indices_valid(),
    ensures
        r matches Ok(d) ==> dfa_wf(d),
        r matches Ok(d) ==> runtime_dfa_of_expression(regex@, d, *character_classes),
        r is Ok ==> regex_syntax_error(regex@) is None,
        subexpression_compiles(regex@) ==> r is Ok,
{
    match compile_subpattern(regex, character_classes, context) {
        Ok(d) => Ok(convert_plain_dfa(&d, character_classes.intervals.len())),
        Err(e) => Err(e),
    }
}

/// The scanner form of an arithmetic expression over the stored count.
pub open spec fn runtime_expr_of(e: CompileTimeExpr) -> types::DynamicExpr
    decreases e,
{
    match e {
        CompileTimeExpr::Lit(v) => types::DynamicExpr::Lit(v),
        CompileTimeExpr::State => types::DynamicExpr::State,
        CompileTimeExpr::Add(l, r) => types::DynamicExpr::Add(Box::new(runtime_expr_of(*l)), Box::new(runtime_expr_of(*r))),
        CompileTimeExpr::Sub(l, r) => types::DynamicExpr::Sub(Box::new(runtime_expr_of(*l)), Box::new(runtime_expr_of(*r))),
    }
}

/// The scanner form of a count validation's constraint.
pub open spec fn runtime_guard_of(c: CompileTimeConstraint) -> types::DynamicGuard {
    match c {
        CompileTimeConstraint::Equals => types::DynamicGuard::Equal,
        CompileTimeConstraint::LessThan => types::DynamicGuard::LessThan,
        CompileTimeConstraint::Range { min, max_exclusive } =>
            types::DynamicGuard::Range { min: runtime_expr_of(min), max_exclusive: runtime_expr_of(max_exclusive) },
    }
}

/// `rt` is the scanner form of the operation `op`.
pub open spec fn runtime_op_of(op: crate::dynamic::DynamicOp, rt: types::DynamicOp) -> bool {
    match (op, rt) {
        (
            crate::dynamic::DynamicOp::CaptureCount { state_index: a, unit: u, min: lo, max: hi },
            types::DynamicOp::CaptureCount { state_index: b, unit: v, min: lo2, max: hi2 },
        ) => a == b && u@ == v@ && lo == lo2 && hi == hi2,
        (
            crate::dynamic::DynamicOp::ValidateCount { state_index: a, unit: u, min: lo, max: hi, guard: g },
            types::DynamicOp::ValidateCount { state_index: b, unit: v, min: lo2, max: hi2, guard: g2 },
        ) => a == b && u@ == v@ && lo == lo2 && hi == hi2 && g2 == runtime_guard_of(g),
        (crate::dynamic::DynamicOp::CaptureStr { state_index: a }, types::DynamicOp::CaptureStr { state_index: b }) => a == b,
        (crate::dynamic::DynamicOp::ValidateStr { state_index: a }, types::DynamicOp::ValidateStr { state_index: b }) => a == b,
        _ => false,
    }
}

/// The scanner form of an arithmetic expression.
pub fn runtime_expr(e: &CompileTimeExpr) -> (r: types::DynamicExpr)
    ensures
        r == runtime_expr_of(*e),
    decreases e,
{
    match e {
        CompileTimeExpr::Lit(v) => types::DynamicExpr::Lit(*v),
        CompileTimeExpr::State => types::DynamicExpr::State,
        CompileTimeExpr::Add(l, r) => types::DynamicExpr::Add(Box::new(runtime_expr(l)), Box::new(runtime_expr(r))),
        CompileTimeExpr::Sub(l, r) => types::DynamicExpr::Sub(Box::new(runtime_expr(l)), Box::new(runtime_expr(r))),
    }
}

/// The scanner form of a count validation's constraint.
pub fn runtime_guard(c: &CompileTimeConstraint) -> (r: types::DynamicGuard)
    ensures
        r == runtime_guard_of(*c),
{
    match c {
        CompileTimeConstraint::Equals => types::DynamicGuard::Equal,
        CompileTimeConstraint::LessThan => types::DynamicGuard::LessThan,
        CompileTimeConstraint::Range { min, max_exclusive } =>
            types::DynamicGuard::Range { min: runtime_expr(min), max_exclusive: runtime_expr(max_exclusive) },
    }
}

/// The scanner form of a runtime-state operation.
pub fn runtime_op(op: &crate::dynamic::DynamicOp) -> (r: types::DynamicOp)
    ensures
        runtime_op_of(*op, r),
{
    match op {
        crate::dynamic::DynamicOp::CaptureCount { state_index, unit, min, max } =>
            types::DynamicOp::CaptureCount { state_index: *state_index, unit: copy_string(unit), min: *min, max: *max },
        crate::dynamic::DynamicOp::ValidateCount { state_index, unit, min, max, guard } =>
            types::DynamicOp::ValidateCount {
                state_index: *state_index,
                unit: copy_string(unit),
                min: *min,
                max: *max,
                guard: runtime_guard(guard),
            },
        crate::dynamic::DynamicOp::CaptureStr { state_index } => types::DynamicOp::CaptureStr { state_index: *state_index },
        crate::dynamic::DynamicOp::ValidateStr { state_index } => types::DynamicOp::ValidateStr { state_index: *state_index },
    }
}

/// The scanner form of a resolved runtime-state pattern: the operation and
/// the DFAs of the text before it, after it and of a captured string.
pub fn runtime_dynamic(c: &CompiledDynamicPattern, character_classes: &CharacterClasses) -> (r: Result<types::DynamicPattern, String>)
    requires
        character_classes.class_indices_valid(),
    ensures
        r matches Ok(d) ==> {
            &&& crate::dynamic_state::dynamic_pattern_wf(d)
            &&& runtime_op_of(c.op, d.op)
            &&& (d.capture is Some <==> c.capture_regex is Some)
        },
        r is Ok ==> compiled_parses(*c),
        (subexpression_compiles(c.prefix_regex@) && subexpression_compiles(c.suffix_regex@)
            && (c.capture_regex matches Some(re) ==> subexpression_compiles(re@))) ==> r is Ok,
        r matches Ok(d) ==> runtime_dfa_of_expression(c.prefix_regex@, d.prefix, *character_classes)
            && runtime_dfa_of_expression(c.suffix_regex@, d.suffix, *character_classes)
            && (d.capture matches Some(cd) ==> c.capture_regex matches Some(re)
                && runtime_dfa_of_expression(re@, cd, *character_classes)),
{
    let prefix = match compile_subpattern_dfa(&c.prefix_regex, character_classes, "dynamic prefix") {
        Ok(d) => d,
        Err(e) => {
            return Err(e);
        },
    };
    let suffix = match compile_subpattern_dfa(&c.suffix_regex, character_classes, "dynamic suffix") {
        Ok(d) => d,
        Err(e) => {
            return Err(e);
        },
    };
    let capture = match &c.capture_regex {
        Some(re) => match compile_subpattern_dfa(re, character_classes, "dynamic capture") {
            Ok(d) => Some(d),
            Err(e) => {
                return Err(e);
            },
        },
        None => None,
    };
    Ok(types::DynamicPattern { op: runtime_op(&c.op), prefix, suffix, capture })
}

/// `a` is the scanner form of the accepted pattern `p`: its token type and
/// priority, a lookahead condition of the same kind, and the operation of its
/// resolved runtime-state part.
pub open spec fn runtime_accept_of(p: Pattern, a: types::AcceptData, cc: CharacterClasses) -> bool {
    &&& a.token_type == p.terminal_type
    &&& a.priority == p.priority
    &&& (a.lookahead is Absent <==> p.lookahead is Absent)
    &&& (a.lookahead is Positive <==> p.lookahead is Positive)
    &&& (a.lookahead is Negative <==> p.lookahead is Negative)
    &&& match (p.lookahead, a.lookahead) {
        (Lookahead::Positive(re), types::Lookahead::Positive(d)) => runtime_dfa_of_expression(re@, d, cc),
        (Lookahead::Negative(re), types::Lookahead::Negative(d)) => runtime_dfa_of_expression(re@, d, cc),
        _ => true,
    }
    &&& match p.dynamic {
        Some(PatternDynamic::Compiled(c)) => a.dynamic matches Some(d) && runtime_op_of(c.op, d.op)
            && (d.capture is Some <==> c.capture_regex is Some)
            && runtime_dfa_of_expression(c.prefix_regex@, d.prefix, cc)
            && runtime_dfa_of_expression(c.suffix_regex@, d.suffix, cc)
            && (d.capture matches Some(cd) ==> c.capture_regex matches Some(re)
                && runtime_dfa_of_expression(re@, cd, cc)),
        _ => a.dynamic is None,
    }
}

/// Whether an accepted pattern has no lookahead condition and no compiled
/// runtime-state part, so that nothing is to be compiled for it.
pub open spec fn without_conditions(p: Pattern) -> bool {
    p.lookahead is Absent && !(p.dynamic matches Some(PatternDynamic::Compiled(_)))
}

/// The scanner form of an accepted pattern; the DFAs of its lookahead
/// condition and runtime-state part are compiled on the character classes.
pub fn runtime_accept(p: &Pattern, character_classes: &CharacterClasses) -> (r: Result<types::AcceptData, String>)
    requires
        character_classes.class_indices_valid(),
    ensures
        r matches Ok(a) ==> accept_wf(a) && runtime_accept_of(*p, a, *character_classes),
        without_conditions(*p) ==> r is Ok,
        conditions_compile(*p) ==> r is Ok,
        r is Ok ==> lookahead_parses(p.lookahead) && dynamic_parses(*p),
{
    let lookahead = match &p.lookahead {
        Lookahead::Absent => types::Lookahead::Absent,
        Lookahead::Positive(re) => match compile_subpattern_dfa(re, character_classes, "lookahead") {
            Ok(d) => types::Lookahead::Positive(d),
            Err(e) => {
                return Err(e);
            },
        },
        Lookahead::Negative(re) => match compile_subpattern_dfa(re, character_classes, "lookahead") {
            Ok(d) => types::Lookahead::Negative(d),
            Err(e) => {
                return Err(e);
            },
        },
    };
    let dynamic = match &p.dynamic {
        Some(PatternDynamic::Compiled(c)) => match runtime_dynamic(c, character_classes) {
            Ok(d) => Some(d),
            Err(e) => {
                return Err(e);
            },
        },
        _ => None,
    };
    Ok(types::AcceptData { token_type: p.terminal_type, priority: p.priority, lookahead, dynamic })
}

/// The scanner form of a mode's DFA: the transitions as rows of `n` entries
/// and the accepted patterns as accept entries, with their DFAs compiled.
pub fn convert_mode_dfa(gen: &Dfa, character_classes: &CharacterClasses) -> (r: Result<types::Dfa, String>)
    requires
        dfa_ok(*gen),
        dfa_groups_below(*gen, character_classes.intervals@.len()),
        character_classes.class_indices_valid(),
    ensures
        r matches Ok(rt) ==> {
            &&& crate::scanner_impl::mode_dfa_wf(rt)
            &&& runtime_dfa_of(*gen, rt, character_classes.intervals@.len())
            &&& forall|s: int, j: int| 0 <= s < rt.states@.len() && 0 <= j < rt.states@[s].accept_data@.len()
                ==> runtime_accept_of(gen.states@[s].accepts@[j], #[trigger] rt.states@[s].accept_data@[j], *character_classes)
        },
        (forall|s: int, j: int| 0 <= s < gen.states@.len() && 0 <= j < gen.states@[s].accepts@.len()
            ==> without_conditions(#[trigger] gen.states@[s].accepts@[j])) ==> r is Ok,
        (forall|s: int, j: int| 0 <= s < gen.states@.len() && 0 <= j < gen.states@[s].accepts@.len()
            ==> conditions_compile(#[trigger] gen.states@[s].accepts@[j])) ==> r is Ok,
{
    let ghost owed = forall|s: int, j: int| 0 <= s < gen.states@.len() && 0 <= j < gen.states@[s].accepts@.len()
        ==> without_conditions(#[trigger] gen.states@[s].accepts@[j]);
    let ghost owed2 = forall|s: int, j: int| 0 <= s < gen.states@.len() && 0 <= j < gen.states@[s].accepts@.len()
        ==> conditions_compile(#[trigger] gen.states@[s].accepts@[j]);
    let n = character_classes.intervals.len();
    let mut states: Vec<types::DfaState> = Vec::new();
    let mut s: usize = 0;
    while s < gen.states.len()
        invariant
            s <= gen.states@.len(),
            n == character_classes.intervals@.len(),
            character_classes.class_indices_valid(),
            dfa_ok(*gen),
            dfa_groups_below(*gen, n as nat),
            owed == forall|s: int, j: int| 0 <= s < gen.states@.len() && 0 <= j < gen.states@[s].accepts@.len()
                ==> without_conditions(#[trigger] gen.states@[s].accepts@[j]),
            owed2 == forall|s: int, j: int| 0 <= s < gen.states@.len() && 0 <= j < gen.states@[s].accepts@.len()
                ==> conditions_compile(#[trigger] gen.states@[s].accepts@[j]),
            states@.len() == s,
            forall|u: int| 0 <= u < s ==> {
                &&& dense_row(gen.states@[u].transitions@, (#[trigger] states@[u]).transitions@, n as nat)
                &&& states@[u].accept_data@.len() == gen.states@[u].accepts@.len()
                &&& forall|j: int| 0 <= j < states@[u].accept_data@.len() ==> {
                    &&& accept_wf(#[trigger] states@[u].accept_data@[j])
                    &&& runtime_accept_of(gen.states@[u].accepts@[j], states@[u].accept_data@[j], *character_classes)
                }
            },
        decreases gen.states.len() - s,
    {
        let state = &gen.states[s];
        assert forall|k: int| 0 <= k < state.transitions@.len() implies
            (#[trigger] state.transitions@[k]).elementary_interval_index < n by {
            assert(gen.states@[s as int].transitions@[k].elementary_interval_index < n);
        }
        let row = dense_transitions(&state.transitions, n);
        let mut accept_data: Vec<types::AcceptData> = Vec::new();
        let mut j: usize = 0;
        while j < state.accepts.len()
            invariant
                j <= state.accepts@.len(),
                character_classes.class_indices_valid(),
                owed == forall|s: int, j: int| 0 <= s < gen.states@.len() && 0 <= j < gen.states@[s].accepts@.len()
                    ==> without_conditions(#[trigger] gen.states@[s].accepts@[j]),
                owed2 == forall|s: int, j: int| 0 <= s < gen.states@.len() && 0 <= j < gen.states@[s].accepts@.len()
                    ==> conditions_compile(#[trigger] gen.states@[s].accepts@[j]),
                state == &gen.states@[s as int],
                (s as int) < gen.states@.len(),
                accept_data@.len() == j,
                forall|u: int| 0 <= u < j ==> {
                    &&& accept_wf(#[trigger] accept_data@[u])
                    &&& runtime_accept_of(state.accepts@[u], accept_data@[u], *character_classes)
                },
            decreases state.accepts.len() - j,
        {
            proof {
                if owed {
                    assert(without_conditions(gen.states@[s as int].accepts@[j as int]));
                }
                if owed2 {
                    assert(conditions_compile(gen.states@[s as int].accepts@[j as int]));
                }
            }
            match runtime_accept(&state.accepts[j], character_classes) {
                Ok(a) => accept_data.push(a),
                Err(e) => {
                    return Err(e);
                },
            }
            j = j + 1;
        }
        states.push(types::DfaState { transitions: row, accept_data });
        s = s + 1;
    }
    let rt = types::Dfa { states };
    proof {
        assert forall|q: int, k: int|
            #![trigger rt.states@[q].transitions@[k]]
            0 <= q < rt.states@.len() && 0 <= k < rt.states@[q].transitions@.len()
                && rt.states@[q].transitions@[k] is Some implies (rt.states@[q].transitions@[k]->0.to as int) < rt.states@.len() by {
            assert(dense_row(gen.states@[q].transitions@, rt.states@[q].transitions@, n as nat));
            let t = rt.states@[q].transitions@[k]->0;
            let kk = choose|kk: int| 0 <= kk < gen.states@[q].transitions@.len()
                && gen.states@[q].transitions@[kk].elementary_interval_index == k
                && gen.states@[q].transitions@[kk].target == t.to;
            assert(gen.states@[q].transitions@[kk].target < gen.states@.len());
        }
    }
    Ok(rt)
}

/// Whether `char::is_uppercase` holds of a character (the Unicode property
/// `Uppercase`).
pub uninterp spec fn char_is_uppercase(c: char) -> bool;

/// The first character of `char::to_lowercase` of a character.
pub uninterp spec fn char_lowercase_first(c: char) -> char;

/// Calls `char::is_uppercase`; the result is named by `char_is_uppercase`.
#[verifier::external_body]
fn is_uppercase(c: char) -> (r: bool)
    ensures
        r == char_is_uppercase(c),
{
    c.is_uppercase()
}

/// Calls `char::to_lowercase` and takes the first character, which the
/// iterator always yields; the result is named by `char_lowercase_first`.
#[verifier::external_body]
fn lowercase_first(c: char) -> (r: char)
    ensures
        r == char_lowercase_first(c),
{
    c.to_lowercase().next().unwrap()
}

/// The snake-case form of a name: each uppercase character is lowercased,
/// with an underscore before it unless it comes first or after an underscore.
pub open spec fn snake_case(s: Seq<char>) -> Seq<char>
    decreases s.len(),
{
    if s.len() == 0 {
        Seq::empty()
    } else {
        let prev = snake_case(s.drop_last());
        let c = s.last();
        if char_is_uppercase(c) {
            if prev.len() > 0 && prev.last() != '_' {
                prev.push('_').push(char_lowercase_first(c))
            } else {
                prev.push(char_lowercase_first(c))
            }
        } else {
            prev.push(c)
        }
    }
}

/// Converts a name from PascalCase or camelCase to snake_case.
pub fn to_snake_case(s: &str) -> (r: String)
    ensures
        r@ == snake_case(s@),
{
    let chars = str_to_chars(s);
    let mut result: Vec<char> = Vec::new();
    let mut i: usize = 0;
    while i < chars.len()
        invariant
            i <= chars@.len(),
            chars@ == s@,
            result@ == snake_case(s@.take(i as int)),
        decreases chars.len() - i,
    {
        let c = chars[i];
        assert(s@.take(i as int + 1).drop_last() =~= s@.take(i as int));
        if is_uppercase(c) {
            if result.len() > 0 && result[result.len() - 1] != '_' {
                result.push('_');
            }
            result.push(lowercase_first(c));
        } else {
            result.push(c);
        }
        i = i + 1;
    }
    assert(s@.take(chars@.len() as int) =~= s@);
    chars_to_string(result.as_slice())
}

/// The automaton of each mode: the alternation of the automata of its
/// patterns, each pattern with its index as priority.
pub fn build_mode_nfas(scanner_modes: &Vec<ScannerMode>) -> (r: Result<Vec<Nfa>, String>)
    ensures
        r matches Ok(nfas) ==> {
            &&& nfas@.len() == scanner_modes@.len()
            &&& forall|i: int| 0 <= i < nfas@.len() ==> {
                &&& (#[trigger] nfas@[i]).wf()
                &&& unconverted(nfas@[i])
                &&& crate::nfa::accepts_patterns(nfas@[i], scanner_modes@[i].patterns@, scanner_modes@[i].patterns@.len() as int)
                &&& nfas@[i].states@.len() == crate::nfa::patterns_shape(scanner_modes@[i].patterns@, scanner_modes@[i].patterns@.len() as int).0
                &&& crate::nfa::patterns_language(nfas@[i], scanner_modes@[i].patterns@, scanner_modes@[i].patterns@.len() as int)
            }
        },
        r is Ok ==> forall|i: int, k: int| 0 <= i < scanner_modes@.len() && 0 <= k < scanner_modes@[i].patterns@.len()
            ==> regex_syntax_error(#[trigger] scanner_modes@[i].patterns@[k].pattern@) is None,
        (forall|i: int, k: int| 0 <= i < scanner_modes@.len() && 0 <= k < scanner_modes@[i].patterns@.len()
            ==> #[trigger] crate::nfa::pattern_joins(scanner_modes@[i].patterns@, k)) ==> r is Ok,
{
    let ghost owed = forall|i: int, k: int| 0 <= i < scanner_modes@.len() && 0 <= k < scanner_modes@[i].patterns@.len()
        ==> #[trigger] crate::nfa::pattern_joins(scanner_modes@[i].patterns@, k);
    let mut nfas: Vec<Nfa> = Vec::new();
    let mut i: usize = 0;
    while i < scanner_modes.len()
        invariant
            i <= scanner_modes@.len(),
            nfas@.len() == i,
            forall|u: int, k: int| 0 <= u < i && 0 <= k < scanner_modes@[u].patterns@.len()
                ==> regex_syntax_error(#[trigger] scanner_modes@[u].patterns@[k].pattern@) is None,
            forall|u: int| 0 <= u < i ==> {
                &&& (#[trigger] nfas@[u]).wf()
                &&& unconverted(nfas@[u])
                &&& crate::nfa::accepts_patterns(nfas@[u], scanner_modes@[u].patterns@, scanner_modes@[u].patterns@.len() as int)
                &&& nfas@[u].states@.len() == crate::nfa::patterns_shape(scanner_modes@[u].patterns@, scanner_modes@[u].patterns@.len() as int).0
                &&& crate::nfa::patterns_language(nfas@[u], scanner_modes@[u].patterns@, scanner_modes@[u].patterns@.len() as int)
            },
            owed == forall|i: int, k: int| 0 <= i < scanner_modes@.len() && 0 <= k < scanner_modes@[i].patterns@.len()
                ==> #[trigger] crate::nfa::pattern_joins(scanner_modes@[i].patterns@, k),
        decreases scanner_modes.len() - i,
    {
        proof {
            if owed {
                assert forall|k: int| 0 <= k < scanner_modes@[i as int].patterns@.len()
                    implies #[trigger] crate::nfa::pattern_joins(scanner_modes@[i as int].patterns@, k) by {}
            }
        }
        match Nfa::build_from_patterns(&scanner_modes[i].patterns) {
            Ok(n) => {
                nfas.push(n);
                proof {
                    assert forall|u: int, k: int| 0 <= u < i + 1 && 0 <= k < scanner_modes@[u].patterns@.len()
                        implies regex_syntax_error(#[trigger] scanner_modes@[u].patterns@[k].pattern@) is None by {
                        if u == i {
                            assert(regex_syntax_error(scanner_modes@[i as int].patterns@[k].pattern@) is None);
                        }
                    }
                }
            },
            Err(e) => {
                let mut msg = String::from_str("Failed to build NFA for pattern: ");
                msg.append(e.as_str());
                return Err(msg);
            },
        }
        i = i + 1;
    }
    Ok(nfas)
}

/// Adds the character classes of the lookahead expressions of the patterns.
pub fn collect_lookahead_character_classes(scanner_modes: &Vec<ScannerMode>, character_classes: &mut CharacterClasses)
    -> (r: Result<(), String>)
    ensures
        final(character_classes).elementary_intervals@ == old(character_classes).elementary_intervals@,
        final(character_classes).intervals@ == old(character_classes).intervals@,
        fresh_classes(*old(character_classes)) ==> fresh_classes(*final(character_classes)),
        classes_kept(*old(character_classes), *final(character_classes)),
        r is Ok ==> forall|i: int, k: int| 0 <= i < scanner_modes@.len() && 0 <= k < scanner_modes@[i].patterns@.len()
            ==> lookahead_parses((#[trigger] scanner_modes@[i].patterns@[k]).lookahead),
        (forall|i: int, k: int| 0 <= i < scanner_modes@.len() && 0 <= k < scanner_modes@[i].patterns@.len()
            ==> conditions_build(#[trigger] scanner_modes@[i].patterns@[k])) ==> r is Ok,
{
    let ghost owed = forall|i: int, k: int| 0 <= i < scanner_modes@.len() && 0 <= k < scanner_modes@[i].patterns@.len()
        ==> conditions_build(#[trigger] scanner_modes@[i].patterns@[k]);
    let mut i: usize = 0;
    while i < scanner_modes.len()
        invariant
            i <= scanner_modes@.len(),
            character_classes.elementary_intervals@ == old(character_classes).elementary_intervals@,
            character_classes.intervals@ == old(character_classes).intervals@,
            fresh_classes(*old(character_classes)) ==> fresh_classes(*character_classes),
            classes_kept(*old(character_classes), *character_classes),
            forall|u: int, k: int| 0 <= u < i && 0 <= k < scanner_modes@[u].patterns@.len()
                ==> lookahead_parses((#[trigger] scanner_modes@[u].patterns@[k]).lookahead),
            owed == forall|i: int, k: int| 0 <= i < scanner_modes@.len() && 0 <= k < scanner_modes@[i].patterns@.len()
                ==> conditions_build(#[trigger] scanner_modes@[i].patterns@[k]),
        decreases scanner_modes.len() - i,
    {
        let patterns = &scanner_modes[i].patterns;
        let mut k: usize = 0;
        while k < patterns.len()
            invariant
                k <= patterns@.len(),
                patterns@ == scanner_modes@[i as int].patterns@,
                i < scanner_modes@.len(),
                character_classes.elementary_intervals@ == old(character_classes).elementary_intervals@,
                character_classes.intervals@ == old(character_classes).intervals@,
                fresh_classes(*old(character_classes)) ==> fresh_classes(*character_classes),
                classes_kept(*old(character_classes), *character_classes),
                forall|u: int, k: int| 0 <= u < i && 0 <= k < scanner_modes@[u].patterns@.len()
                    ==> lookahead_parses((#[trigger] scanner_modes@[u].patterns@[k]).lookahead),
                forall|j: int| 0 <= j < k ==> lookahead_parses((#[trigger] patterns@[j]).lookahead),
                owed == forall|i: int, k: int| 0 <= i < scanner_modes@.len() && 0 <= k < scanner_modes@[i].patterns@.len()
                    ==> conditions_build(#[trigger] scanner_modes@[i].patterns@[k]),
            decreases patterns.len() - k,
        {
            match &patterns[k].lookahead {
                Lookahead::Positive(re) | Lookahead::Negative(re) => {
                    proof {
                        if owed {
                            assert(conditions_build(scanner_modes@[i as int].patterns@[k as int]));
                        }
                    }
                    match collect_subpattern_character_classes(re, character_classes, "lookahead") {
                        Ok(()) => {},
                        Err(e) => {
                            return Err(e);
                        },
                    }
                },
                Lookahead::Absent => {},
            }
            k = k + 1;
        }
        i = i + 1;
    }
    Ok(())
}

/// Adds the character classes of the parts of the resolved runtime-state
/// patterns.
pub fn collect_dynamic_subpattern_character_classes(scanner_modes: &Vec<ScannerMode>, character_classes: &mut CharacterClasses)
    -> (r: Result<(), String>)
    ensures
        final(character_classes).elementary_intervals@ == old(character_classes).elementary_intervals@,
        final(character_classes).intervals@ == old(character_classes).intervals@,
        fresh_classes(*old(character_classes)) ==> fresh_classes(*final(character_classes)),
        classes_kept(*old(character_classes), *final(character_classes)),
        r is Ok ==> forall|i: int, k: int| 0 <= i < scanner_modes@.len() && 0 <= k < scanner_modes@[i].patterns@.len()
            ==> dynamic_parses(#[trigger] scanner_modes@[i].patterns@[k]),
        (forall|i: int, k: int| 0 <= i < scanner_modes@.len() && 0 <= k < scanner_modes@[i].patterns@.len()
            ==> conditions_build(#[trigger] scanner_modes@[i].patterns@[k])) ==> r is Ok,
{
    let ghost owed = forall|i: int, k: int| 0 <= i < scanner_modes@.len() && 0 <= k < scanner_modes@[i].patterns@.len()
        ==> conditions_build(#[trigger] scanner_modes@[i].patterns@[k]);
    let mut i: usize = 0;
    while i < scanner_modes.len()
        invariant
            i <= scanner_modes@.len(),
            character_classes.elementary_intervals@ == old(character_classes).elementary_intervals@,
            character_classes.intervals@ == old(character_classes).intervals@,
            fresh_classes(*old(character_classes)) ==> fresh_classes(*character_classes),
            classes_kept(*old(character_classes), *character_classes),
            forall|u: int, k: int| 0 <= u < i && 0 <= k < scanner_modes@[u].patterns@.len()
                ==> dynamic_parses(#[trigger] scanner_modes@[u].patterns@[k]),
            owed == forall|i: int, k: int| 0 <= i < scanner_modes@.len() && 0 <= k < scanner_modes@[i].patterns@.len()
                ==> conditions_build(#[trigger] scanner_modes@[i].patterns@[k]),
        decreases scanner_modes.len() - i,
    {
        let patterns = &scanner_modes[i].patterns;
        let mut k: usize = 0;
        while k < patterns.len()
            invariant
                k <= patterns@.len(),
                patterns@ == scanner_modes@[i as int].patterns@,
                i < scanner_modes@.len(),
                character_classes.elementary_intervals@ == old(character_classes).elementary_intervals@,
                character_classes.intervals@ == old(character_classes).intervals@,
                fresh_classes(*old(character_classes)) ==> fresh_classes(*character_classes),
                classes_kept(*old(character_classes), *character_classes),
                forall|u: int, k: int| 0 <= u < i && 0 <= k < scanner_modes@[u].patterns@.len()
                    ==> dynamic_parses(#[trigger] scanner_modes@[u].patterns@[k]),
                forall|j: int| 0 <= j < k ==> dynamic_parses(#[trigger] patterns@[j]),
                owed == forall|i: int, k: int| 0 <= i < scanner_modes@.len() && 0 <= k < scanner_modes@[i].patterns@.len()
                    ==> conditions_build(#[trigger] scanner_modes@[i].patterns@[k]),
            decreases patterns.len() - k,
        {
            match patterns[k].compiled() {
                Some(dynamic) => {
                    let subs = dynamic.subpatterns();
                    let mut j: usize = 0;
                    while j < subs.len()
                        invariant
                            j <= subs@.len(),
                            character_classes.elementary_intervals@ == old(character_classes).elementary_intervals@,
                            character_classes.intervals@ == old(character_classes).intervals@,
                            fresh_classes(*old(character_classes)) ==> fresh_classes(*character_classes),
                            classes_kept(*old(character_classes), *character_classes),
                            forall|jj: int| 0 <= jj < j ==> regex_syntax_error((#[trigger] subs@[jj])@) is None,
                            subs@.len() == if dynamic.capture_regex is Some { 3nat } else { 2nat },
                            subs@[0]@ == dynamic.prefix_regex@,
                            subs@[1]@ == dynamic.suffix_regex@,
                            dynamic.capture_regex is Some ==> subs@[2]@ == dynamic.capture_regex->0@,
                            patterns@[k as int].dynamic == Some(PatternDynamic::Compiled(*dynamic)),
                            k < patterns@.len(),
                            patterns@ == scanner_modes@[i as int].patterns@,
                            i < scanner_modes@.len(),
                            forall|u: int, k: int| 0 <= u < i && 0 <= k < scanner_modes@[u].patterns@.len()
                                ==> dynamic_parses(#[trigger] scanner_modes@[u].patterns@[k]),
                            forall|jj: int| 0 <= jj < k ==> dynamic_parses(#[trigger] patterns@[jj]),
                            owed == forall|i: int, k: int| 0 <= i < scanner_modes@.len() && 0 <= k < scanner_modes@[i].patterns@.len()
                                ==> conditions_build(#[trigger] scanner_modes@[i].patterns@[k]),
                        decreases subs.len() - j,
                    {
                        proof {
                            if owed {
                                assert(conditions_build(scanner_modes@[i as int].patterns@[k as int]));
                            }
                        }
                        match collect_subpattern_character_classes(&subs[j], character_classes, "dynamic-state subpattern") {
                            Ok(()) => {},
                            Err(e) => {
                                return Err(e);
                            },
                        }
                        j = j + 1;
                    }
                    proof {
                        assert(regex_syntax_error(subs@[0]@) is None && regex_syntax_error(subs@[1]@) is None);
                        if dynamic.capture_regex is Some {
                            assert(regex_syntax_error(subs@[2]@) is None);
                        }
                    }
                },
                None => {},
            }
            k = k + 1;
        }
        i = i + 1;
    }
    Ok(())
}

/// The scanner form of a mode transition.
pub open spec fn runtime_transition_of(t: TransitionToNumericMode) -> types::Transition {
    match t {
        TransitionToNumericMode::SetMode(tt, m) => types::Transition::SetMode(tt, m),
        TransitionToNumericMode::PushMode(tt, m) => types::Transition::PushMode(tt, m),
        TransitionToNumericMode::PopMode(tt) => types::Transition::PopMode(tt),
    }
}

/// The scanner form of a mode transition.
pub fn runtime_transition(t: &TransitionToNumericMode) -> (r: types::Transition)
    ensures
        r == runtime_transition_of(*t),
{
    match t {
        TransitionToNumericMode::SetMode(tt, m) => types::Transition::SetMode(*tt, *m),
        TransitionToNumericMode::PushMode(tt, m) => types::Transition::PushMode(*tt, *m),
        TransitionToNumericMode::PopMode(tt) => types::Transition::PopMode(*tt),
    }
}

/// The accept entries of every state are in strictly increasing order of
/// priority, then token type: a scanner takes the first eligible one, so a
/// lower priority number wins.
pub open spec fn accept_entries_sorted(rt: types::Dfa) -> bool {
    forall|s: int, i: int, j: int| 0 <= s < rt.states@.len() && 0 <= i < j < rt.states@[s].accept_data@.len() ==> {
        let a = #[trigger] rt.states@[s].accept_data@[i];
        let b = #[trigger] rt.states@[s].accept_data@[j];
        a.priority < b.priority || (a.priority == b.priority && a.token_type < b.token_type)
    }
}

/// The scanner form of the minimal DFA of a subset construction has its
/// accept entries in order.
proof fn lemma_runtime_accepts_sorted(nfa: Nfa, d: Dfa, sets: Seq<Seq<usize>>, cls: Seq<usize>, gd: Dfa, rt: types::Dfa, n: nat)
    requires
        crate::dfa::subset_construction(nfa, d, sets),
        crate::minimizer::quotient(d, gd, cls),
        runtime_dfa_of(gd, rt, n),
    ensures
        accept_entries_sorted(rt),
{
    assert forall|s: int, i: int, j: int| 0 <= s < rt.states@.len() && 0 <= i < j < rt.states@[s].accept_data@.len() implies {
        let a = #[trigger] rt.states@[s].accept_data@[i];
        let b = #[trigger] rt.states@[s].accept_data@[j];
        a.priority < b.priority || (a.priority == b.priority && a.token_type < b.token_type)
    } by {
        assert(crate::minimizer::represented(d, gd, cls, s));
        let x = choose|x: int| 0 <= x < cls.len() && #[trigger] cls[x] == s && {
            let a = gd.states@[s].accepts@;
            let b = d.states@[x].accepts@;
            &&& a.len() == b.len()
            &&& forall|k: int| 0 <= k < a.len() ==> crate::pattern::pattern_same(#[trigger] a[k], b[k])
        };
        assert(crate::dfa::accepts_of(nfa, sets[x], d.states@[x].accepts@));
        let pa = d.states@[x].accepts@[i];
        let pb = d.states@[x].accepts@[j];
        assert(crate::dfa::accept_lt(pa, pb));
        assert(crate::pattern::pattern_same(gd.states@[s].accepts@[i], pa));
        assert(crate::pattern::pattern_same(gd.states@[s].accepts@[j], pb));
    }
}

/// The steps from the patterns of a mode to its scanner DFA on the disjoint
/// character classes `cc`: `nfa0` reads exactly the words of each (kept,
/// well-formed) pattern into states that accept it with its index as
/// priority; `nfa` is `nfa0` split into the classes; `d` is its subset
/// construction, `gd` the quotient of `d` and `rt` the scanner form of `gd`,
/// its accept entries those of the patterns `gd` accepts.
pub open spec fn mode_chain(pats: Seq<Pattern>, rt: types::Dfa, nfa0: Nfa, nfa: Nfa, d: Dfa, sets: Seq<Seq<usize>>,
    cls: Seq<usize>, gd: Dfa, cc: CharacterClasses) -> bool {
    let n = cc.intervals@.len();
    &&& nfa0.wf()
    &&& unconverted(nfa0)
    &&& crate::nfa::accepts_patterns(nfa0, pats, pats.len() as int)
    &&& crate::nfa::patterns_language(nfa0, pats, pats.len() as int)
    &&& disjoint_form(nfa0, nfa, cc)
    &&& nfa.wf()
    &&& converted(nfa)
    &&& crate::nfa::accepts_patterns(nfa, pats, pats.len() as int)
    &&& nfa_groups_below(nfa, n)
    &&& crate::dfa::subset_construction(nfa, d, sets)
    &&& crate::minimizer::quotient(d, gd, cls)
    &&& runtime_dfa_of(gd, rt, n)
    &&& forall|s: int, j: int| 0 <= s < rt.states@.len() && 0 <= j < rt.states@[s].accept_data@.len()
        ==> runtime_accept_of(gd.states@[s].accepts@[j], #[trigger] rt.states@[s].accept_data@[j], cc)
}

/// `rt` is the scanner DFA of the patterns `pats` on the disjoint character
/// classes `cc`.
pub open spec fn mode_dfa_of(pats: Seq<Pattern>, rt: types::Dfa, cc: CharacterClasses) -> bool {
    exists|nfa0: Nfa, nfa: Nfa, d: Dfa, sets: Seq<Seq<usize>>, cls: Seq<usize>, gd: Dfa|
        #[trigger] mode_chain(pats, rt, nfa0, nfa, d, sets, cls, gd, cc)
}

/// `pats` are the patterns `orig` with their runtime-state parts resolved:
/// the same token types, priorities and lookahead conditions, and the same
/// patterns where there was nothing to resolve.
pub open spec fn resolved_from(orig: Seq<Pattern>, pats: Seq<Pattern>) -> bool {
    &&& pats.len() == orig.len()
    &&& forall|k: int| 0 <= k < pats.len() ==> {
        let p = #[trigger] pats[k];
        let q = orig[k];
        &&& p.terminal_type == q.terminal_type
        &&& p.priority == q.priority
        &&& crate::pattern::lookahead_same(p.lookahead, q.lookahead)
        &&& !(q.dynamic matches Some(PatternDynamic::Unresolved(_))) ==> crate::pattern::pattern_same(p, q)
        &&& !(p.dynamic matches Some(PatternDynamic::Unresolved(_)))
    }
}

/// The mode names of a scanner description.
pub open spec fn names_of(data: ScannerData) -> Seq<Seq<char>> {
    data.modes@.map_values(|m: ScannerModeWithNamedTransitions| m.name@)
}

/// The transitions of mode `i` with mode names resolved, sorted by token type,
/// in scanner form.
pub open spec fn runtime_transitions_of(data: ScannerData, i: int) -> Seq<types::Transition> {
    sort_by_type(data.modes@[i].transitions@.map_values(|t: TransitionToNamedMode| numeric_of(t, names_of(data))->0))
        .map_values(|t: TransitionToNumericMode| runtime_transition_of(t))
}

/// A generated scanner: its name and module name, its modes with their DFAs
/// and transitions, the classification of characters into the disjoint
/// character classes the DFAs run on, and the number of runtime-state slots.
pub struct GeneratedScanner {
    pub name: String,
    pub module_name: String,
    pub modes: Vec<types::ScannerMode>,
    pub class_table: CharClassTable,
    pub character_class_count: usize,
    pub dynamic_state_len: usize,
    /// Whether the scanner keeps runtime state: it is then constructed with
    /// its state slots and offers to reset them.
    pub with_dynamic_state: bool,
}

/// Splitting the transitions into disjoint classes keeps the accepting states.
proof fn lemma_convert_keeps_accepts(before: Nfa, after: Nfa, pats: Seq<Pattern>, n: int)
    requires
        crate::nfa::accepts_patterns(before, pats, n),
        after.states@.len() == before.states@.len(),
        forall|i: int| 0 <= i < after.states@.len() ==> (#[trigger] after.states@[i]).accept_data == before.states@[i].accept_data,
    ensures
        crate::nfa::accepts_patterns(after, pats, n),
{
    assert forall|i: int| 0 <= i < after.states@.len() && (#[trigger] after.states@[i]).accept_data is Some implies {
        let p = after.states@[i].accept_data->0;
        &&& 0 <= p.priority < n
        &&& crate::pattern::pattern_same(p, crate::nfa::prioritized(pats[p.priority as int], p.priority))
    } by {
        assert(before.states@[i].accept_data is Some);
    }
}

/// A pattern that the minimal DFA of a mode's automaton accepts is a copy of
/// the mode's pattern at its priority: the same token type.
proof fn lemma_accept_of_pattern(pats: Seq<Pattern>, nfa: Nfa, d: Dfa, sets: Seq<Seq<usize>>, cls: Seq<usize>,
    gd: Dfa, s: int, j: int)
    requires
        crate::nfa::accepts_patterns(nfa, pats, pats.len() as int),
        crate::dfa::subset_construction(nfa, d, sets),
        crate::minimizer::quotient(d, gd, cls),
        0 <= s < gd.states@.len(),
        0 <= j < gd.states@[s].accepts@.len(),
    ensures
        0 <= gd.states@[s].accepts@[j].priority < pats.len(),
        gd.states@[s].accepts@[j].terminal_type == pats[gd.states@[s].accepts@[j].priority as int].terminal_type,
        crate::pattern::pattern_same(gd.states@[s].accepts@[j],
            crate::nfa::prioritized(pats[gd.states@[s].accepts@[j].priority as int], gd.states@[s].accepts@[j].priority)),
{
    assert(crate::minimizer::represented(d, gd, cls, s));
    let x = choose|x: int| 0 <= x < cls.len() && #[trigger] cls[x] == s && {
        let a = gd.states@[s].accepts@;
        let b = d.states@[x].accepts@;
        &&& a.len() == b.len()
        &&& forall|k: int| 0 <= k < a.len() ==> crate::pattern::pattern_same(#[trigger] a[k], b[k])
    };
    let b = d.states@[x].accepts@[j];
    assert(crate::pattern::pattern_same(gd.states@[s].accepts@[j], b));
    assert(crate::dfa::accepts_of(nfa, sets[x], d.states@[x].accepts@));
    assert(crate::dfa::accepted_in(nfa, sets[x], b));
    let k = choose|k: int| 0 <= k < sets[x].len() && crate::dfa::copies_accept(#[trigger] nfa.states@[sets[x][k] as int], b);
    assert(crate::dfa::set_ok(nfa, sets[x]));
    let i = sets[x][k] as int;
    assert(nfa.states@[i].accept_data is Some);
    let q = nfa.states@[i].accept_data->0;
    assert(crate::pattern::pattern_same(q, crate::nfa::prioritized(pats[q.priority as int], q.priority)));
}

/// A pattern that the minimal DFA of a mode's automaton accepts has the
/// lookahead condition and runtime-state part of a pattern of the mode.
proof fn lemma_accept_has_conditions_of_pattern(pats: Seq<Pattern>, nfa: Nfa, d: Dfa, sets: Seq<Seq<usize>>, cls: Seq<usize>,
    gd: Dfa, s: int, j: int)
    requires
        crate::nfa::accepts_patterns(nfa, pats, pats.len() as int),
        crate::dfa::subset_construction(nfa, d, sets),
        crate::minimizer::quotient(d, gd, cls),
        0 <= s < gd.states@.len(),
        0 <= j < gd.states@[s].accepts@.len(),
        !without_conditions(gd.states@[s].accepts@[j]),
    ensures
        exists|k: int| 0 <= k < pats.len() && !without_conditions(#[trigger] pats[k]),
{
    assert(crate::minimizer::represented(d, gd, cls, s));
    let x = choose|x: int| 0 <= x < cls.len() && #[trigger] cls[x] == s && {
        let a = gd.states@[s].accepts@;
        let b = d.states@[x].accepts@;
        &&& a.len() == b.len()
        &&& forall|k: int| 0 <= k < a.len() ==> crate::pattern::pattern_same(#[trigger] a[k], b[k])
    };
    let b = d.states@[x].accepts@[j];
    assert(crate::pattern::pattern_same(gd.states@[s].accepts@[j], b));
    assert(crate::dfa::accepts_of(nfa, sets[x], d.states@[x].accepts@));
    assert(crate::dfa::accepted_in(nfa, sets[x], b));
    let k = choose|k: int| 0 <= k < sets[x].len() && crate::dfa::copies_accept(#[trigger] nfa.states@[sets[x][k] as int], b);
    assert(crate::dfa::set_ok(nfa, sets[x]));
    let i = sets[x][k] as int;
    assert(nfa.states@[i].accept_data is Some);
    let q = nfa.states@[i].accept_data->0;
    assert(crate::pattern::pattern_same(q, crate::nfa::prioritized(pats[q.priority as int], q.priority)));
    assert(!without_conditions(pats[q.priority as int]));
}

/// `after` is the automaton `before` split into the disjoint character
/// classes `cc`: the same states, accepting the same, with each transition
/// replaced by transitions on the classes it covers.
pub open spec fn disjoint_form(before: Nfa, after: Nfa, cc: CharacterClasses) -> bool {
    &&& after.wf()
    &&& converted(after)
    &&& after.states@.len() == before.states@.len()
    &&& after.start_state == before.start_state
    &&& after.end_state == before.end_state
    &&& forall|i: int| 0 <= i < after.states@.len() ==> {
        &&& (#[trigger] after.states@[i]).accept_data == before.states@[i].accept_data
        &&& crate::nfa::split_transitions(cc, before.states@[i].transitions@, after.states@[i].transitions@)
    }
}

/// The scanner form of a mode: its automaton split into the disjoint
/// character classes, determinized, minimized and put into scanner form.
pub fn runtime_mode(mode: &ScannerMode, nfa: Nfa, character_classes: &CharacterClasses) -> (r: Result<types::ScannerMode, String>)
    requires
        nfa.wf(),
        unconverted(nfa),
        crate::nfa::accepts_patterns(nfa, mode.patterns@, mode.patterns@.len() as int),
        crate::nfa::patterns_language(nfa, mode.patterns@, mode.patterns@.len() as int),
        character_classes.class_indices_valid(),
    ensures
        r matches Ok(m) ==> {
            &&& crate::scanner_impl::mode_dfa_wf(m.dfa)
            &&& m.name@ == mode.name@
            &&& m.transitions@ == mode.transitions@.map_values(|t: TransitionToNumericMode| runtime_transition_of(t))
            &&& mode_dfa_of(mode.patterns@, m.dfa, *character_classes)
            &&& accept_entries_sorted(m.dfa)
            &&& accepts_ordered(m.dfa)
        },
        (forall|k: int| 0 <= k < mode.patterns@.len() ==> conditions_compile(#[trigger] mode.patterns@[k]))
            && subsets_fit(nfa.states@.len()) ==> r is Ok,
        r is Err ==> (exists|k: int| 0 <= k < mode.patterns@.len() && !without_conditions(#[trigger] mode.patterns@[k]))
            || (exists|split: Nfa| #[trigger] disjoint_form(nfa, split, *character_classes) && crate::dfa::too_many_sets(split)),
{
    let n = character_classes.intervals.len();
    let mut nfa = nfa;
    let ghost before = nfa;
    nfa.convert_to_disjoint_character_classes(character_classes);
    proof {
        lemma_converted_groups_below(before, nfa, *character_classes);
        lemma_convert_keeps_accepts(before, nfa, mode.patterns@, mode.patterns@.len() as int);
    }
    let gd = match Dfa::try_from_nfa(&nfa) {
        Ok(d) => d,
        Err(e) => {
            assert(disjoint_form(before, nfa, *character_classes));
            assert(nfa.states@.len() == before.states@.len());
            let mut msg = String::from_str("Failed to convert NFA to DFA: ");
            msg.append(e.as_str());
            return Err(msg);
        },
    };
    let ghost (d0, sets, cls) = choose|d0: Dfa, sets: Seq<Seq<usize>>, cls: Seq<usize>|
        crate::dfa::subset_construction(nfa, d0, sets) && crate::minimizer::quotient(d0, gd, cls);
    proof {
        lemma_minimal_dfa_bounds(nfa, d0, sets, gd, cls, n as nat);
    }
    let rt = match convert_mode_dfa(&gd, character_classes) {
        Ok(d) => d,
        Err(e) => {
            proof {
                let (s, j) = choose|s: int, j: int| 0 <= s < gd.states@.len() && 0 <= j < gd.states@[s].accepts@.len()
                    && !without_conditions(#[trigger] gd.states@[s].accepts@[j]);
                lemma_accept_has_conditions_of_pattern(mode.patterns@, nfa, d0, sets, cls, gd, s, j);
                if exists|s: int, j: int| 0 <= s < gd.states@.len() && 0 <= j < gd.states@[s].accepts@.len()
                    && !conditions_compile(#[trigger] gd.states@[s].accepts@[j]) {
                    let (s2, j2) = choose|s: int, j: int| 0 <= s < gd.states@.len() && 0 <= j < gd.states@[s].accepts@.len()
                        && !conditions_compile(#[trigger] gd.states@[s].accepts@[j]);
                    lemma_accept_of_pattern(mode.patterns@, nfa, d0, sets, cls, gd, s2, j2);
                    let a = gd.states@[s2].accepts@[j2];
                    assert(!conditions_compile(mode.patterns@[a.priority as int]));
                }
            }
            return Err(e);
        },
    };
    proof {
        assert(disjoint_form(before, nfa, *character_classes));
        assert(mode_chain(mode.patterns@, rt, before, nfa, d0, sets, cls, gd, *character_classes));
        lemma_runtime_accepts_sorted(nfa, d0, sets, cls, gd, rt, n as nat);
        assert forall|q: int, i: int, j: int| 0 <= q < rt.states@.len() && 0 <= i < j < rt.states@[q].accept_data@.len()
            implies accept_before(#[trigger] rt.states@[q].accept_data@[i], #[trigger] rt.states@[q].accept_data@[j]) by {
            lemma_accept_of_pattern(mode.patterns@, nfa, d0, sets, cls, gd, q, i);
            lemma_accept_of_pattern(mode.patterns@, nfa, d0, sets, cls, gd, q, j);
        }
    }
    let mut transitions: Vec<types::Transition> = Vec::new();
    let mut k: usize = 0;
    while k < mode.transitions.len()
        invariant
            k <= mode.transitions@.len(),
            transitions@ == mode.transitions@.take(k as int).map_values(|t: TransitionToNumericMode| runtime_transition_of(t)),
        decreases mode.transitions.len() - k,
    {
        transitions.push(runtime_transition(&mode.transitions[k]));
        proof {
            assert(mode.transitions@.take(k as int + 1) =~= mode.transitions@.take(k as int).push(mode.transitions@[k as int]));
        }
        k = k + 1;
    }
    assert(mode.transitions@.take(mode.transitions@.len() as int) =~= mode.transitions@);
    Ok(types::ScannerMode { name: mode.name.clone(), transitions, dfa: rt })
}

/// The modes `ms` are those of the description with mode names and
/// runtime-state parts resolved.
#[verifier::opaque]
pub open spec fn resolved_modes(data: ScannerData, ms: Seq<ScannerMode>) -> bool {
    &&& ms.len() == data.modes@.len()
    &&& forall|i: int| 0 <= i < data.modes@.len() ==> all_resolve((#[trigger] data.modes@[i]).transitions@, names_of(data))
    &&& forall|i: int| 0 <= i < ms.len() ==> {
        &&& (#[trigger] ms[i]).name@ == data.modes@[i].name@
        &&& ms[i].transitions@ == sort_by_type(
            data.modes@[i].transitions@.map_values(|t: TransitionToNamedMode| numeric_of(t, names_of(data))->0))
        &&& resolved_from(data.modes@[i].patterns@, ms[i].patterns@)
        &&& forall|k: int| 0 <= k < ms[i].patterns@.len()
            ==> resolved_as(data.modes@[i].patterns@[k], #[trigger] ms[i].patterns@[k], data.states@)
    }
}

/// The modes of the description, resolved.
fn resolve_modes(data: &ScannerData) -> (r: Result<Vec<ScannerMode>, String>)
    ensures
        (exists|i: int| 0 <= i < data.modes@.len() && !all_resolve((#[trigger] data.modes@[i]).transitions@, names_of(*data)))
            ==> r is Err,
        (forall|i: int| 0 <= i < data.modes@.len() ==> all_resolve((#[trigger] data.modes@[i]).transitions@, names_of(*data)))
            && (forall|i: int, k: int| 0 <= i < data.modes@.len() && 0 <= k < data.modes@[i].patterns@.len()
                ==> segments_resolve(#[trigger] data.modes@[i].patterns@[k], data.states@)) ==> r is Ok,
        r matches Ok(ms) ==> resolved_modes(*data, ms@) && ms@.len() == data.modes@.len(),
{
    let r = data.build_scanner_modes();
    proof {
        reveal(resolved_modes);
        if r is Ok {
            let ms = r->Ok_0;
            assert forall|i: int| 0 <= i < ms@.len() implies resolved_from(data.modes@[i].patterns@, (#[trigger] ms@[i]).patterns@) by {
                assert(ms@[i].patterns@.len() == data.modes@[i].patterns@.len());
            }
        }
    }
    r
}

/// What resolution says of one mode.
proof fn lemma_resolved_mode(data: ScannerData, ms: Seq<ScannerMode>, u: int)
    requires
        resolved_modes(data, ms),
        0 <= u < ms.len(),
    ensures
        ms.len() == data.modes@.len(),
        all_resolve(data.modes@[u].transitions@, names_of(data)),
        ms[u].name@ == data.modes@[u].name@,
        ms[u].transitions@ == sort_by_type(
            data.modes@[u].transitions@.map_values(|t: TransitionToNamedMode| numeric_of(t, names_of(data))->0)),
        resolved_from(data.modes@[u].patterns@, ms[u].patterns@),
{
    reveal(resolved_modes);
}

/// A transition of a resolved mode leads to a mode.
proof fn lemma_transition_target(data: ScannerData, ms: Seq<ScannerMode>, u: int, x: TransitionToNumericMode)
    requires
        resolved_modes(data, ms),
        0 <= u < ms.len(),
        ms[u].transitions@.contains(x),
    ensures
        x matches TransitionToNumericMode::SetMode(_, m) ==> (m as int) < ms.len(),
        x matches TransitionToNumericMode::PushMode(_, m) ==> (m as int) < ms.len(),
{
    lemma_resolved_mode(data, ms, u);
    let names = names_of(data);
    let mapped = data.modes@[u].transitions@.map_values(|t: TransitionToNamedMode| numeric_of(t, names)->0);
    assert(all_resolve(data.modes@[u].transitions@, names));
    lemma_sort_by_type_contents(mapped);
    assert(sort_by_type(mapped).contains(x));
    let w = choose|w: int| 0 <= w < mapped.len() && mapped[w] == x;
    let t = data.modes@[u].transitions@[w];
    assert(numeric_of(t, names) is Some);
    assert(names.len() == data.modes@.len());
    match t {
        TransitionToNamedMode::SetMode(_, name) => lemma_first_index_in_range(names, name@),
        TransitionToNamedMode::PushMode(_, name) => lemma_first_index_in_range(names, name@),
        TransitionToNamedMode::PopMode(_) => {},
    }
}

/// Every transition of the scanner modes leads to a mode.
proof fn lemma_transition_targets(data: ScannerData, ms: Seq<ScannerMode>, modes: Seq<types::ScannerMode>)
    requires
        resolved_modes(data, ms),
        modes.len() == ms.len(),
        forall|i: int| 0 <= i < modes.len() ==> (#[trigger] modes[i]).transitions@ == ms[i].transitions@.map_values(
            |t: TransitionToNumericMode| runtime_transition_of(t)),
    ensures
        forall|u: int, k: int|
            0 <= u < modes.len() && 0 <= k < modes[u].transitions@.len() ==> (
            #[trigger] modes[u].transitions@[k] matches types::Transition::SetMode(_, m) ==> (m as int) < modes.len())
            && (modes[u].transitions@[k] matches types::Transition::PushMode(_, m) ==> (m as int) < modes.len()),
{
    assert forall|u: int, k: int|
        0 <= u < modes.len() && 0 <= k < modes[u].transitions@.len() implies (
        #[trigger] modes[u].transitions@[k] matches types::Transition::SetMode(_, m) ==> (m as int) < modes.len())
        && (modes[u].transitions@[k] matches types::Transition::PushMode(_, m) ==> (m as int) < modes.len()) by {
        assert(modes[u].transitions@ == ms[u].transitions@.map_values(|t: TransitionToNumericMode| runtime_transition_of(t)));
        let x = ms[u].transitions@[k];
        assert(ms[u].transitions@.contains(x));
        lemma_transition_target(data, ms, u, x);
    }
}

/// The facts of each built mode give those of the scanner.
proof fn lemma_modes_of_scanner(data: ScannerData, ms: Seq<ScannerMode>, modes: Seq<types::ScannerMode>, cc: CharacterClasses)
    requires
        resolved_modes(data, ms),
        modes.len() == ms.len(),
        forall|u: int| 0 <= u < modes.len() ==> {
            &&& (#[trigger] modes[u]).name@ == ms[u].name@
            &&& modes[u].transitions@ == ms[u].transitions@.map_values(|t: TransitionToNumericMode| runtime_transition_of(t))
            &&& mode_dfa_of(ms[u].patterns@, modes[u].dfa, cc)
        },
    ensures
        forall|i: int| 0 <= i < modes.len() ==> {
            &&& (#[trigger] modes[i]).name@ == data.modes@[i].name@
            &&& modes[i].transitions@ == runtime_transitions_of(data, i)
            &&& exists|pats: Seq<Pattern>| resolved_from(data.modes@[i].patterns@, pats)
                && #[trigger] mode_dfa_of(pats, modes[i].dfa, cc)
        },
{
    assert forall|i: int| 0 <= i < modes.len() implies {
        &&& (#[trigger] modes[i]).name@ == data.modes@[i].name@
        &&& modes[i].transitions@ == runtime_transitions_of(data, i)
        &&& exists|pats: Seq<Pattern>| resolved_from(data.modes@[i].patterns@, pats)
            && #[trigger] mode_dfa_of(pats, modes[i].dfa, cc)
    } by {
        lemma_resolved_mode(data, ms, i);
        assert(modes[i].transitions@ =~= runtime_transitions_of(data, i));
        assert(mode_dfa_of(ms[i].patterns@, modes[i].dfa, cc));
    }
}

/// The character classification of `g` is that of the disjoint character
/// classes `cc`: one entry per elementary interval, mapped to the disjoint
/// class that holds it, and as many classes as `cc` has.
pub open spec fn classes_of(g: GeneratedScanner, cc: CharacterClasses) -> bool {
    &&& cc.intervals@.len() == g.character_class_count
    &&& g.class_table.intervals@.len() == cc.elementary_intervals@.len()
    &&& forall|k: int| 0 <= k < g.class_table.intervals@.len() ==> {
        &&& (#[trigger] g.class_table.intervals@[k]).0 == cc.elementary_intervals@[k].0
        &&& g.class_table.intervals@[k].1 == cc.elementary_intervals@[k].1
        &&& g.class_table.intervals@[k].2 == cc.group_of(cc.elementary_intervals@[k])
    }
}

/// The modes of `g` are built, each from the patterns of the description's
/// mode with their runtime-state parts resolved, on the disjoint character
/// classes `cc`.
pub open spec fn modes_built_on(data: ScannerData, g: GeneratedScanner, cc: CharacterClasses) -> bool {
    forall|i: int| 0 <= i < g.modes@.len() ==> #[trigger] mode_built_on(data, g, cc, i)
}

/// Mode `i` of `g` is built from the patterns of the description's mode `i`,
/// with their runtime-state parts resolved, on the disjoint classes `cc`.
pub open spec fn mode_built_on(data: ScannerData, g: GeneratedScanner, cc: CharacterClasses, i: int) -> bool {
    exists|pats: Seq<Pattern>| resolved_from(data.modes@[i].patterns@, pats) && #[trigger] mode_dfa_of(pats, g.modes@[i].dfa, cc)
}

/// Modes built from the resolved modes on `cc` are built on `cc`.
proof fn lemma_modes_built_on(data: ScannerData, ms: Seq<ScannerMode>, modes: Seq<types::ScannerMode>, g: GeneratedScanner,
    cc: CharacterClasses)
    requires
        g.modes@ == modes,
        resolved_modes(data, ms),
        modes.len() == ms.len(),
        forall|u: int| 0 <= u < modes.len() ==> mode_dfa_of(ms[u].patterns@, (#[trigger] modes[u]).dfa, cc),
    ensures
        modes_built_on(data, g, cc),
{
    assert forall|i: int| 0 <= i < g.modes@.len() implies #[trigger] mode_built_on(data, g, cc, i) by {
        lemma_resolved_mode(data, ms, i);
        assert(mode_dfa_of(ms[i].patterns@, modes[i].dfa, cc));
        assert(resolved_from(data.modes@[i].patterns@, ms[i].patterns@) && mode_dfa_of(ms[i].patterns@, g.modes@[i].dfa, cc));
    }
}

/// `g` is a scanner of the description `data`: its modes are well formed,
/// named as in the description, with its transitions resolved and sorted, and
/// DFAs built from its patterns with their runtime-state parts resolved, their
/// accept entries in order of priority, all on the one set of disjoint
/// character classes its classification is made of; its classification is
/// well formed and names classes below its class count.
pub open spec fn scanner_of(data: ScannerData, g: GeneratedScanner) -> bool {
    &&& modes_wf(g.modes@)
    &&& g.class_table.wf()
    &&& forall|k: int| 0 <= k < g.class_table.intervals@.len() ==> (#[trigger] g.class_table.intervals@[k]).2 < g.character_class_count
    &&& g.name@ == data.name@
    &&& g.module_name@ == snake_case(data.name@)
    &&& g.dynamic_state_len == data.states@.len()
    &&& g.with_dynamic_state == (data.states@.len() > 0)
    &&& g.modes@.len() == data.modes@.len()
    &&& forall|i: int| 0 <= i < g.modes@.len() ==> accept_entries_sorted((#[trigger] g.modes@[i]).dfa)
    &&& forall|i: int| 0 <= i < g.modes@.len() ==> {
        &&& (#[trigger] g.modes@[i]).name@ == data.modes@[i].name@
        &&& g.modes@[i].transitions@ == runtime_transitions_of(data, i)
    }
    &&& exists|cc: CharacterClasses| #[trigger] classes_of(g, cc) && modes_built_on(data, g, cc)
}

/// Whether `regex_syntax` parses the expressions of a pattern of a scanner
/// description: that of its lookahead condition, and its own where it has no
/// runtime-state part still to resolve.
pub open spec fn expressions_parse(p: Pattern) -> bool {
    &&& lookahead_parses(p.lookahead)
    &&& !(p.dynamic matches Some(PatternDynamic::Unresolved(_))) ==> regex_syntax_error(p.pattern@) is None
}

/// The shape of the automaton of the first `n` expressions joined as
/// alternatives, each by its tree.
pub open spec fn expressions_shape(texts: Seq<Seq<char>>, n: int) -> (nat, bool)
    decreases n,
{
    if n <= 0 || n > texts.len() {
        (1, true)
    } else {
        crate::nfa::alternation_shapes(expressions_shape(texts, n - 1), crate::nfa::nfa_shape(regex_tree(texts[n - 1])))
    }
}

/// Whether the `k`-th expression parses, is supported, and its automaton
/// joins those of the expressions before it within the limits of `usize`.
pub open spec fn expression_joins(texts: Seq<Seq<char>>, k: int) -> bool {
    let t = regex_tree(texts[k]);
    let before = expressions_shape(texts, k).0;
    &&& regex_syntax_error(texts[k]) is None
    &&& crate::nfa::ast_supported(t)
    &&& crate::nfa::ast_fits(t)
    &&& before < usize::MAX - 2
    &&& crate::nfa::nfa_shape(t).0 <= usize::MAX - 2 - before
}

/// The expressions of the patterns of mode `i` once their runtime-state
/// segments are resolved.
pub open spec fn resolved_expressions(data: ScannerData, i: int) -> Seq<Seq<char>> {
    data.modes@[i].patterns@.map_values(|q: Pattern| resolved_expression(q, data.states@))
}

/// Whether the DFAs of the lookahead condition of a pattern and of its
/// runtime-state part, once resolved, can be compiled.
pub open spec fn resolved_conditions_compile(q: Pattern, states: Seq<crate::dynamic::StateDeclaration>) -> bool {
    &&& match q.lookahead {
        Lookahead::Positive(re) => subexpression_compiles(re@),
        Lookahead::Negative(re) => subexpression_compiles(re@),
        Lookahead::Absent => true,
    }
    &&& match q.dynamic {
        Some(PatternDynamic::Unresolved(u)) => {
            let segs = u.segments@;
            let pos = crate::dynamic::first_op(segs);
            let res = crate::dynamic::resolution(segs[pos], states)->0;
            &&& subexpression_compiles(crate::dynamic::joined_regex(segs.subrange(0, pos)))
            &&& subexpression_compiles(crate::dynamic::joined_regex(segs.subrange(pos + 1, segs.len() as int)))
            &&& (res.1 matches Some(re) ==> subexpression_compiles(re))
        },
        Some(PatternDynamic::Compiled(c)) => subexpression_compiles(c.prefix_regex@) && subexpression_compiles(c.suffix_regex@)
            && (c.capture_regex matches Some(re) ==> subexpression_compiles(re@)),
        None => true,
    }
}

/// Whether a scanner can be built from the description: it has a mode, its
/// transitions name its modes, the runtime-state segments of its patterns
/// resolve, each resolved expression parses, is supported and joins its
/// mode's automaton within the limits of `usize`, the expressions of the
/// lookahead conditions and resolved runtime-state parts compile, and the
/// sets of states of each mode's automaton can be counted.
pub open spec fn scanner_builds(data: ScannerData) -> bool {
    &&& data.modes@.len() > 0
    &&& forall|i: int| 0 <= i < data.modes@.len() ==> all_resolve((#[trigger] data.modes@[i]).transitions@, names_of(data))
    &&& forall|i: int, k: int| 0 <= i < data.modes@.len() && 0 <= k < data.modes@[i].patterns@.len()
        ==> segments_resolve(#[trigger] data.modes@[i].patterns@[k], data.states@)
    &&& forall|i: int, k: int| 0 <= i < data.modes@.len() && 0 <= k < data.modes@[i].patterns@.len()
        ==> #[trigger] expression_joins(resolved_expressions(data, i), k)
    &&& forall|i: int, k: int| 0 <= i < data.modes@.len() && 0 <= k < data.modes@[i].patterns@.len()
        ==> resolved_conditions_compile(#[trigger] data.modes@[i].patterns@[k], data.states@)
    &&& forall|i: int| 0 <= i < data.modes@.len()
        ==> subsets_fit(#[trigger] expressions_shape(resolved_expressions(data, i), data.modes@[i].patterns@.len() as int).0)
}

proof fn lemma_shape_same(pats: Seq<Pattern>, texts: Seq<Seq<char>>, n: int)
    requires
        pats.len() == texts.len(),
        forall|k: int| 0 <= k < texts.len() ==> (#[trigger] pats[k]).pattern@ == texts[k],
    ensures
        crate::nfa::patterns_shape(pats, n) == expressions_shape(texts, n),
    decreases n,
{
    if n > 0 && n <= texts.len() {
        lemma_shape_same(pats, texts, n - 1);
        assert(pats[n - 1].pattern@ == texts[n - 1]);
    }
}

/// What the resolved modes of a description that builds keep of it.
proof fn lemma_builds_resolved(data: ScannerData, ms: Seq<ScannerMode>)
    requires
        scanner_builds(data),
        resolved_modes(data, ms),
    ensures
        forall|i: int, k: int| 0 <= i < ms.len() && 0 <= k < ms[i].patterns@.len()
            ==> #[trigger] crate::nfa::pattern_joins(ms[i].patterns@, k),
        forall|i: int, k: int| 0 <= i < ms.len() && 0 <= k < ms[i].patterns@.len()
            ==> conditions_compile(#[trigger] ms[i].patterns@[k]),
        forall|i: int| 0 <= i < ms.len()
            ==> subsets_fit(crate::nfa::patterns_shape((#[trigger] ms[i]).patterns@, ms[i].patterns@.len() as int).0),
{
    reveal(resolved_modes);
    assert forall|i: int| #![trigger ms[i]] 0 <= i < ms.len() implies
        forall|n: int| #[trigger] crate::nfa::patterns_shape(ms[i].patterns@, n) == expressions_shape(resolved_expressions(data, i), n) by {
        let pats = ms[i].patterns@;
        let texts = resolved_expressions(data, i);
        assert(resolved_from(data.modes@[i].patterns@, pats));
        assert forall|k: int| 0 <= k < texts.len() implies (#[trigger] pats[k]).pattern@ == texts[k] by {
            assert(resolved_as(data.modes@[i].patterns@[k], pats[k], data.states@));
        }
        assert forall|n: int| #[trigger] crate::nfa::patterns_shape(pats, n) == expressions_shape(texts, n) by {
            lemma_shape_same(pats, texts, n);
        }
    }
    assert forall|i: int, k: int| 0 <= i < ms.len() && 0 <= k < ms[i].patterns@.len()
        implies #[trigger] crate::nfa::pattern_joins(ms[i].patterns@, k) by {
        assert(expression_joins(resolved_expressions(data, i), k));
        assert(resolved_from(data.modes@[i].patterns@, ms[i].patterns@));
        assert(resolved_as(data.modes@[i].patterns@[k], ms[i].patterns@[k], data.states@));
        assert(crate::nfa::patterns_shape(ms[i].patterns@, k) == expressions_shape(resolved_expressions(data, i), k));
    }
    assert forall|i: int, k: int| 0 <= i < ms.len() && 0 <= k < ms[i].patterns@.len()
        implies conditions_compile(#[trigger] ms[i].patterns@[k]) by {
        let q = data.modes@[i].patterns@[k];
        let p = ms[i].patterns@[k];
        assert(resolved_conditions_compile(q, data.states@));
        assert(resolved_from(data.modes@[i].patterns@, ms[i].patterns@));
        assert(resolved_as(q, p, data.states@));
        assert(crate::pattern::lookahead_same(p.lookahead, q.lookahead));
        if !(q.dynamic matches Some(PatternDynamic::Unresolved(_))) {
            assert(crate::pattern::pattern_same(p, q));
        }
    }
    assert forall|i: int| 0 <= i < ms.len()
        implies subsets_fit(crate::nfa::patterns_shape((#[trigger] ms[i]).patterns@, ms[i].patterns@.len() as int).0) by {
        assert(subsets_fit(expressions_shape(resolved_expressions(data, i), data.modes@[i].patterns@.len() as int).0));
        assert(crate::nfa::patterns_shape(ms[i].patterns@, ms[i].patterns@.len() as int)
            == expressions_shape(resolved_expressions(data, i), ms[i].patterns@.len() as int));
    }
}

/// Builds a scanner from its description: resolves the modes, builds the
/// automaton of each mode and of each lookahead and runtime-state
/// subexpression, splits the character classes into disjoint classes,
/// determinizes and minimizes each automaton, and puts the DFAs into the form
/// a scanner runs on. Fails where a transition names an unknown mode, a
/// runtime-state part does not resolve, an expression does not build, or the
/// automata grow too large to count.
#[verifier::spinoff_prover]
#[verifier::rlimit(40)]
pub fn build_scanner(data: &ScannerData) -> (r: Result<GeneratedScanner, String>)
    ensures
        data.modes@.len() == 0 ==> r is Err,
        (exists|i: int| 0 <= i < data.modes@.len() && !all_resolve((#[trigger] data.modes@[i]).transitions@, names_of(*data)))
            ==> r is Err,
        r matches Ok(g) ==> scanner_of(*data, g),
        r is Ok ==> forall|i: int, k: int| 0 <= i < data.modes@.len() && 0 <= k < data.modes@[i].patterns@.len()
            ==> expressions_parse(#[trigger] data.modes@[i].patterns@[k]),
        scanner_builds(*data) ==> r is Ok,
{
    let ghost builds = scanner_builds(*data);
    if data.modes.len() == 0 {
        return Err(String::from_str("expected at least one mode"));
    }
    let scanner_modes = match resolve_modes(data) {
        Ok(m) => m,
        Err(e) => {
            return Err(e);
        },
    };
    proof {
        if builds {
            lemma_builds_resolved(*data, scanner_modes@);
        }
    }
    let nfas = match build_mode_nfas(&scanner_modes) {
        Ok(n) => n,
        Err(e) => {
            return Err(e);
        },
    };
    let mut cc = CharacterClasses::new();
    let mut i: usize = 0;
    while i < nfas.len()
        invariant
            i <= nfas@.len(),
            nfas@.len() == scanner_modes@.len(),
            forall|u: int| 0 <= u < nfas@.len() ==> unconverted(#[trigger] nfas@[u]),
            fresh_classes(cc),
        decreases nfas.len() - i,
    {
        nfas[i].collect_character_classes(&mut cc);
        i = i + 1;
    }
    proof {
        if builds {
            assert forall|i: int, k: int| 0 <= i < scanner_modes@.len() && 0 <= k < scanner_modes@[i].patterns@.len()
                implies conditions_build(#[trigger] scanner_modes@[i].patterns@[k]) by {
                assert(conditions_compile(scanner_modes@[i].patterns@[k]));
            }
            assert forall|u: int| 0 <= u < nfas@.len() implies subsets_fit((#[trigger] nfas@[u]).states@.len()) by {
                assert(subsets_fit(crate::nfa::patterns_shape(scanner_modes@[u].patterns@, scanner_modes@[u].patterns@.len() as int).0));
            }
        }
    }
    match collect_lookahead_character_classes(&scanner_modes, &mut cc) {
        Ok(()) => {},
        Err(e) => {
            return Err(e);
        },
    }
    match collect_dynamic_subpattern_character_classes(&scanner_modes, &mut cc) {
        Ok(()) => {},
        Err(e) => {
            return Err(e);
        },
    }
    proof {
        reveal(resolved_modes);
        assert forall|i: int, k: int| 0 <= i < data.modes@.len() && 0 <= k < data.modes@[i].patterns@.len()
            implies expressions_parse(#[trigger] data.modes@[i].patterns@[k]) by {
            assert(resolved_from(data.modes@[i].patterns@, scanner_modes@[i].patterns@));
            let p = scanner_modes@[i].patterns@[k];
            assert(lookahead_parses(p.lookahead));
            assert(regex_syntax_error(p.pattern@) is None);
        }
    }
    cc.create_disjoint_character_classes();
    let n = cc.intervals.len();
    let ghost nfas0 = nfas@;
    let mut nfas = nfas;
    let mut modes: Vec<types::ScannerMode> = Vec::new();
    let mut i: usize = 0;
    while i < scanner_modes.len()
        invariant
            i <= scanner_modes@.len(),
            nfas0.len() == scanner_modes@.len(),
            nfas@.len() + i == scanner_modes@.len(),
            n == cc.intervals@.len(),
            cc.class_indices_valid(),
            cc.groups_complete(),
            modes@.len() == i,
            nfas@ == nfas0.skip(i as int),
            forall|u: int| 0 <= u < nfas0.len() ==> {
                &&& (#[trigger] nfas0[u]).wf()
                &&& unconverted(nfas0[u])
                &&& crate::nfa::accepts_patterns(nfas0[u], scanner_modes@[u].patterns@, scanner_modes@[u].patterns@.len() as int)
                &&& crate::nfa::patterns_language(nfas0[u], scanner_modes@[u].patterns@, scanner_modes@[u].patterns@.len() as int)
            },
            resolved_modes(*data, scanner_modes@),
            builds == scanner_builds(*data),
            builds ==> forall|u: int| 0 <= u < nfas0.len() ==> subsets_fit((#[trigger] nfas0[u]).states@.len()),
            builds ==> forall|u: int, k: int| 0 <= u < scanner_modes@.len() && 0 <= k < scanner_modes@[u].patterns@.len()
                ==> conditions_compile(#[trigger] scanner_modes@[u].patterns@[k]),
            forall|u: int| 0 <= u < i ==> {
                &&& crate::scanner_impl::mode_dfa_wf((#[trigger] modes@[u]).dfa)
                &&& modes@[u].name@ == scanner_modes@[u].name@
                &&& modes@[u].transitions@ == scanner_modes@[u].transitions@.map_values(
                    |t: TransitionToNumericMode| runtime_transition_of(t))
                &&& mode_dfa_of(scanner_modes@[u].patterns@, modes@[u].dfa, cc)
                &&& accept_entries_sorted(modes@[u].dfa)
                &&& accepts_ordered(modes@[u].dfa)
            },
        decreases scanner_modes.len() - i,
    {
        let nfa = nfas.remove(0);
        assert(nfa == nfas0[i as int]);
        assert(nfas@ =~= nfas0.skip(i as int + 1));
        proof {
            if builds {
                assert(subsets_fit(nfas0[i as int].states@.len()));
                assert forall|k: int| 0 <= k < scanner_modes@[i as int].patterns@.len()
                    implies conditions_compile(#[trigger] scanner_modes@[i as int].patterns@[k]) by {}
            }
        }
        let m = match runtime_mode(&scanner_modes[i], nfa, &cc) {
            Ok(m) => m,
            Err(e) => {
                return Err(e);
            },
        };
        modes.push(m);
        i = i + 1;
    }
    proof {
        lemma_transition_targets(*data, scanner_modes@, modes@);
        lemma_modes_of_scanner(*data, scanner_modes@, modes@, cc);
    }
    let class_table = cc.class_table();
    proof {
        assert forall|k: int| 0 <= k < class_table.intervals@.len() implies (#[trigger] class_table.intervals@[k]).2 < n by {
            assert(cc.in_some_group(cc.elementary_intervals@[k]));
            crate::character_classes::lemma_group_of_in_range(cc, cc.elementary_intervals@[k]);
        }
    }
    let g = GeneratedScanner {
        name: data.name.clone(),
        module_name: to_snake_case(data.name.as_str()),
        modes,
        class_table,
        character_class_count: n,
        dynamic_state_len: data.states.len(),
        with_dynamic_state: data.states.len() > 0,
    };
    proof {
        lemma_modes_built_on(*data, scanner_modes@, modes@, g, cc);
    }
    assert(modes_built_on(*data, g, cc));
    assert(classes_of(g, cc));
    assert(forall|i: int| 0 <= i < g.modes@.len() ==> {
        &&& (#[trigger] g.modes@[i]).name@ == data.modes@[i].name@
        &&& g.modes@[i].transitions@ == runtime_transitions_of(*data, i)
    }) by {
        assert forall|i: int| 0 <= i < g.modes@.len() implies {
            &&& (#[trigger] g.modes@[i]).name@ == data.modes@[i].name@
            &&& g.modes@[i].transitions@ == runtime_transitions_of(*data, i)
        } by {
            assert(g.modes@[i] == modes@[i]);
        }
    }
    assert(modes_wf(g.modes@));
    assert(g.class_table.wf());
    assert(g.modes@.len() == data.modes@.len());
    assert(forall|i: int| 0 <= i < g.modes@.len() ==> accept_entries_sorted((#[trigger] g.modes@[i]).dfa));
    assert(scanner_of(*data, g));
    Ok(g)
}

} // verus!
