//! What the automata built from regular expressions accept: the runs of an
//! NFA over characters, the words a regular expression matches, and how the
//! operations of Thompson's construction carry runs over.
use vstd::prelude::*;
use crate::character_classes::kind_covers;
use crate::nfa::{epsilon, extended_state, shift_transition, shifted_state, shifted_state_with, CharacterClassType, Nfa, NfaTransition};
use crate::regex_ast::RegexAst;

verus! {

/// Whether the transition reads the character `c`.
pub open spec fn reads(t: NfaTransition, c: char) -> bool {
    match t.character_class {
        Some(CharacterClassType::Kind(k)) => kind_covers(k, c, c),
        Some(CharacterClassType::Range(rs, _)) => exists|i: int|
            0 <= i < rs@.len() && (#[trigger] rs@[i]).0 <= c && c <= rs@[i].1,
        None => false,
    }
}

/// Whether the NFA can go from state `s` to state `t` in `n` steps, reading
/// `w`: each step follows an epsilon transition, or a transition that reads
/// the next character.
pub open spec fn runs(nfa: Nfa, s: int, w: Seq<char>, t: int, n: nat) -> bool
    decreases n,
{
    if n == 0 {
        s == t && w.len() == 0
    } else {
        &&& 0 <= s < nfa.states@.len()
        &&& exists|k: int| #![trigger nfa.states@[s].transitions@[k]]
            0 <= k < nfa.states@[s].transitions@.len() && {
                let tr = nfa.states@[s].transitions@[k];
                ||| tr.character_class is None && runs(nfa, tr.target as int, w, t, (n - 1) as nat)
                ||| w.len() > 0 && reads(tr, w[0]) && runs(nfa, tr.target as int, w.drop_first(), t, (n - 1) as nat)
            }
    }
}

/// Whether the NFA goes from its start state to its end state reading `w`.
pub open spec fn accepts_word(nfa: Nfa, w: Seq<char>) -> bool {
    exists|n: nat| runs(nfa, nfa.start_state as int, w, nfa.end_state as int, n)
}

/// Whether `k` repetitions are allowed by the bounds.
pub open spec fn count_in(min: u32, max: Option<u32>, k: nat) -> bool {
    min <= k && (max matches Some(m) ==> k <= m)
}

/// Whether `w` is the word of a character of one of the ranges.
pub open spec fn class_matches(ranges: Seq<(char, char)>, w: Seq<char>) -> bool {
    w.len() == 1 && exists|i: int| 0 <= i < ranges.len() && (#[trigger] ranges[i]).0 <= w[0] && w[0] <= ranges[i].1
}

/// Whether the expression matches the word `w`.
pub open spec fn regex_matches(ast: RegexAst, w: Seq<char>) -> bool
    decreases ast, 0int,
{
    match ast {
        RegexAst::Empty => w.len() == 0,
        RegexAst::Look(_) => w.len() == 0,
        RegexAst::Literal(bytes) => w == vstd::utf8::decode_utf8(bytes@),
        RegexAst::Class(ranges) => class_matches(ranges@, w),
        RegexAst::Repetition { min, max, sub, .. } => exists|k: nat| #[trigger] count_in(min, max, k) && power(*sub, k as int, w),
        RegexAst::Capture(sub) => regex_matches(*sub, w),
        RegexAst::Concat(subs) => concat_matches(subs@, subs@.len() as int, w),
        RegexAst::Alternation(subs) => alt_matches(subs@, subs@.len() as int, w),
    }
}

/// Whether `w` is made of `k` words that the expression matches.
pub open spec fn power(sub: RegexAst, k: int, w: Seq<char>) -> bool
    decreases sub, k,
{
    if k <= 0 {
        w.len() == 0
    } else {
        exists|u: Seq<char>, v: Seq<char>| #![trigger u + v] w == u + v && power(sub, k - 1, u) && regex_matches(sub, v)
    }
}

/// Whether `w` is made of words that the first `n` expressions match, in order.
pub open spec fn concat_matches(subs: Seq<RegexAst>, n: int, w: Seq<char>) -> bool
    decreases subs, n,
{
    if n <= 0 || n > subs.len() {
        w.len() == 0
    } else {
        exists|u: Seq<char>, v: Seq<char>| #![trigger u + v] w == u + v && concat_matches(subs, n - 1, u) && regex_matches(subs[n - 1], v)
    }
}

/// Whether one of the first `n` expressions matches `w`.
pub open spec fn alt_matches(subs: Seq<RegexAst>, n: int, w: Seq<char>) -> bool
    decreases subs, n,
{
    if n <= 0 || n > subs.len() {
        false
    } else {
        alt_matches(subs, n - 1, w) || regex_matches(subs[n - 1], w)
    }
}

/// Transition `t2` does what `t1` does, with its target moved by `off`.
pub open spec fn trans_like(t1: NfaTransition, t2: NfaTransition, off: int) -> bool {
    &&& t2.target == t1.target + off
    &&& (t1.character_class is None <==> t2.character_class is None)
    &&& forall|c: char| #[trigger] reads(t1, c) == reads(t2, c)
}

/// Every state `i` of `a` is state `i + off` of `c`, whose transitions begin
/// with those of `a`'s state, moved by `off`.
pub open spec fn embeds(a: Nfa, c: Nfa, off: int) -> bool {
    &&& off >= 0
    &&& a.states@.len() + off <= c.states@.len()
    &&& forall|i: int, k: int| 0 <= i < a.states@.len() && 0 <= k < a.states@[i].transitions@.len() ==> {
        &&& k < c.states@[i + off].transitions@.len()
        &&& trans_like(a.states@[i].transitions@[k], #[trigger] c.states@[i + off].transitions@[k], off)
    }
}

/// A run of `a` is a run of an automaton that embeds it.
pub proof fn lemma_runs_embed(a: Nfa, c: Nfa, off: int, s: int, w: Seq<char>, t: int, n: nat)
    requires
        embeds(a, c, off),
        runs(a, s, w, t, n),
    ensures
        runs(c, s + off, w, t + off, n),
    decreases n,
{
    if n > 0 {
        let k = choose|k: int| #![trigger a.states@[s].transitions@[k]]
            0 <= k < a.states@[s].transitions@.len() && {
                let tr = a.states@[s].transitions@[k];
                ||| tr.character_class is None && runs(a, tr.target as int, w, t, (n - 1) as nat)
                ||| w.len() > 0 && reads(tr, w[0]) && runs(a, tr.target as int, w.drop_first(), t, (n - 1) as nat)
            };
        let tr = a.states@[s].transitions@[k];
        let tc = c.states@[s + off].transitions@[k];
        assert(trans_like(tr, tc, off));
        if tr.character_class is None && runs(a, tr.target as int, w, t, (n - 1) as nat) {
            lemma_runs_embed(a, c, off, tr.target as int, w, t, (n - 1) as nat);
        } else {
            assert(reads(tr, w[0]) == reads(tc, w[0]));
            lemma_runs_embed(a, c, off, tr.target as int, w.drop_first(), t, (n - 1) as nat);
        }
        assert(c.states@[s + off].transitions@[k] == tc);
    }
}

/// Runs one after the other make a run.
pub proof fn lemma_runs_compose(c: Nfa, s: int, u: Seq<char>, m: int, n1: nat, v: Seq<char>, t: int, n2: nat)
    requires
        runs(c, s, u, m, n1),
        runs(c, m, v, t, n2),
    ensures
        runs(c, s, u + v, t, n1 + n2),
    decreases n1,
{
    if n1 == 0 {
        assert(u + v =~= v);
    } else {
        let k = choose|k: int| #![trigger c.states@[s].transitions@[k]]
            0 <= k < c.states@[s].transitions@.len() && {
                let tr = c.states@[s].transitions@[k];
                ||| tr.character_class is None && runs(c, tr.target as int, u, m, (n1 - 1) as nat)
                ||| u.len() > 0 && reads(tr, u[0]) && runs(c, tr.target as int, u.drop_first(), m, (n1 - 1) as nat)
            };
        let tr = c.states@[s].transitions@[k];
        if tr.character_class is None && runs(c, tr.target as int, u, m, (n1 - 1) as nat) {
            lemma_runs_compose(c, tr.target as int, u, m, (n1 - 1) as nat, v, t, n2);
            assert((n1 - 1) as nat + n2 == (n1 + n2 - 1) as nat);
        } else {
            lemma_runs_compose(c, tr.target as int, u.drop_first(), m, (n1 - 1) as nat, v, t, n2);
            assert((u + v).drop_first() =~= u.drop_first() + v);
            assert((u + v)[0] == u[0]);
            assert((n1 - 1) as nat + n2 == (n1 + n2 - 1) as nat);
        }
    }
}

/// An epsilon transition is a run of one step that reads nothing.
pub proof fn lemma_runs_epsilon(c: Nfa, s: int, k: int)
    requires
        0 <= s < c.states@.len(),
        0 <= k < c.states@[s].transitions@.len(),
        c.states@[s].transitions@[k].character_class is None,
    ensures
        runs(c, s, Seq::empty(), c.states@[s].transitions@[k].target as int, 1),
{
    let tr = c.states@[s].transitions@[k];
    assert(runs(c, tr.target as int, Seq::<char>::empty(), tr.target as int, 0));
}

/// The automaton of the empty expression reads nothing.
pub proof fn lemma_empty_runs(a: Nfa, w: Seq<char>, n: nat)
    requires
        a.spec_is_empty(),
        runs(a, 0, w, 0, n),
    ensures
        w.len() == 0,
{
    if n > 0 {
        assert(a.states@[0].transitions@.len() == 0);
    }
}

/// The automaton of the empty expression accepts the empty word, and only it.
pub proof fn lemma_empty_accepts(a: Nfa, w: Seq<char>)
    requires
        a.spec_is_empty(),
    ensures
        accepts_word(a, w) <==> w.len() == 0,
{
    if accepts_word(a, w) {
        let n = choose|n: nat| runs(a, a.start_state as int, w, a.end_state as int, n);
        lemma_empty_runs(a, w, n);
    }
    if w.len() == 0 {
        assert(runs(a, a.start_state as int, w, a.end_state as int, 0));
    }
}

/// The transitions of `t` begin with those of `s`, moved by `off`.
pub open spec fn prefix_shifted(s: crate::nfa::NfaState, t: crate::nfa::NfaState, off: int) -> bool {
    &&& s.transitions@.len() <= t.transitions@.len()
    &&& forall|k: int| 0 <= k < s.transitions@.len() ==> #[trigger] t.transitions@[k] == shift_transition(s.transitions@[k], off)
}

/// An automaton whose states `off..` begin with the moved transitions of the
/// states of `a` embeds `a`.
pub proof fn lemma_embeds(a: Nfa, c: Nfa, off: int)
    requires
        a.wf(),
        c.wf(),
        off >= 0,
        a.states@.len() + off <= c.states@.len(),
        c.states@.len() <= usize::MAX,
        forall|i: int| 0 <= i < a.states@.len() ==> prefix_shifted(#[trigger] a.states@[i], c.states@[i + off], off),
    ensures
        embeds(a, c, off),
{
    assert forall|i: int, k: int| 0 <= i < a.states@.len() && 0 <= k < a.states@[i].transitions@.len() implies {
        &&& k < c.states@[i + off].transitions@.len()
        &&& trans_like(a.states@[i].transitions@[k], #[trigger] c.states@[i + off].transitions@[k], off)
    } by {
        assert(prefix_shifted(a.states@[i], c.states@[i + off], off));
        let t1 = a.states@[i].transitions@[k];
        let t2 = c.states@[i + off].transitions@[k];
        assert(t2 == shift_transition(t1, off));
        assert(t1.target < a.states@.len());
        assert(forall|ch: char| #[trigger] reads(t1, ch) == reads(t2, ch));
    }
}

/// A state equal to another begins with its transitions.
pub proof fn lemma_prefix_equal(s: crate::nfa::NfaState, t: crate::nfa::NfaState)
    requires
        s == t,
    ensures
        prefix_shifted(s, t, 0),
{
    assert forall|k: int| 0 <= k < s.transitions@.len() implies #[trigger] t.transitions@[k] == shift_transition(s.transitions@[k], 0) by {
        let tr = s.transitions@[k];
        assert(shift_transition(tr, 0) == tr);
    }
}

/// A state with transitions added begins with its transitions.
pub proof fn lemma_prefix_extended(s: crate::nfa::NfaState, t: crate::nfa::NfaState, extra: Seq<NfaTransition>)
    requires
        extended_state(s, t, extra),
    ensures
        prefix_shifted(s, t, 0),
{
    assert forall|k: int| 0 <= k < s.transitions@.len() implies #[trigger] t.transitions@[k] == shift_transition(s.transitions@[k], 0) by {
        let tr = s.transitions@[k];
        assert(shift_transition(tr, 0) == tr);
        assert(t.transitions@[k] == (s.transitions@ + extra)[k]);
    }
}

/// A state moved by `off`, with transitions added, begins with the moved
/// transitions.
pub proof fn lemma_prefix_moved(s: crate::nfa::NfaState, t: crate::nfa::NfaState, off: int, extra: Seq<NfaTransition>)
    requires
        shifted_state(s, t, off) || shifted_state_with(s, t, off, extra),
    ensures
        prefix_shifted(s, t, off),
{
    let moved = s.transitions@.map_values(|tr: NfaTransition| shift_transition(tr, off));
    assert forall|k: int| 0 <= k < s.transitions@.len() implies #[trigger] t.transitions@[k] == shift_transition(s.transitions@[k], off) by {
        assert(moved[k] == shift_transition(s.transitions@[k], off));
        if shifted_state(s, t, off) {
            assert(t.transitions@ == moved);
        } else {
            assert(t.transitions@ == moved + extra);
            assert(t.transitions@[k] == moved[k]);
        }
    }
}

/// The word of a run of `a` followed by one of `b`, where `a` is joined to
/// `b` by concatenation, is a word of the joined automaton.
pub proof fn lemma_concat_accepts(a: Nfa, b: Nfa, c: Nfa, u: Seq<char>, v: Seq<char>)
    requires
        a.wf(),
        b.wf(),
        c.wf(),
        c.states@.len() <= usize::MAX,
        ({
            let l1 = a.states@.len();
            &&& c.states@.len() == l1 + b.states@.len()
            &&& forall|i: int| 0 <= i < l1 && i != a.end_state ==> #[trigger] c.states@[i] == a.states@[i]
            &&& extended_state(a.states@[a.end_state as int], c.states@[a.end_state as int],
                seq![epsilon((b.start_state + l1) as usize)])
            &&& forall|i: int| 0 <= i < b.states@.len() ==>
                shifted_state(b.states@[i], #[trigger] c.states@[l1 + i], l1 as int)
            &&& c.start_state == a.start_state
            &&& c.end_state == b.end_state + l1
        }),
        accepts_word(a, u),
        accepts_word(b, v),
    ensures
        accepts_word(c, u + v),
{
    let l1 = a.states@.len() as int;
    assert forall|i: int| 0 <= i < a.states@.len() implies prefix_shifted(#[trigger] a.states@[i], c.states@[i + 0], 0) by {
        if i == a.end_state {
            lemma_prefix_extended(a.states@[i], c.states@[i], seq![epsilon((b.start_state + l1) as usize)]);
        } else {
            lemma_prefix_equal(a.states@[i], c.states@[i]);
        }
    }
    lemma_embeds(a, c, 0);
    assert forall|i: int| 0 <= i < b.states@.len() implies prefix_shifted(#[trigger] b.states@[i], c.states@[i + l1], l1) by {
        assert(c.states@[i + l1] == c.states@[l1 + i]);
        lemma_prefix_moved(b.states@[i], c.states@[i + l1], l1, Seq::empty());
    }
    lemma_embeds(b, c, l1);
    let n1 = choose|n: nat| runs(a, a.start_state as int, u, a.end_state as int, n);
    let n2 = choose|n: nat| runs(b, b.start_state as int, v, b.end_state as int, n);
    lemma_runs_embed(a, c, 0, a.start_state as int, u, a.end_state as int, n1);
    lemma_runs_embed(b, c, l1, b.start_state as int, v, b.end_state as int, n2);
    let e = a.end_state as int;
    let k = a.states@[e].transitions@.len() as int;
    assert(c.states@[e].transitions@[k] == epsilon((b.start_state + l1) as usize));
    lemma_runs_epsilon(c, e, k);
    lemma_runs_compose(c, a.start_state as int, u, e, n1, Seq::empty(), b.start_state + l1, 1);
    assert(u + Seq::<char>::empty() =~= u);
    lemma_runs_compose(c, a.start_state as int, u, b.start_state + l1, n1 + 1, v, b.end_state + l1, n2);
    assert(runs(c, c.start_state as int, u + v, c.end_state as int, n1 + 1 + n2));
}

/// The structure of the alternation `c` of `a` and `b`, where `a` is not the
/// automaton of the empty expression.
pub open spec fn alternation_of(a: Nfa, b: Nfa, c: Nfa) -> bool {
    let l1 = a.states@.len();
    let l2 = b.states@.len();
    let s = (l1 + l2) as int;
    let e = (l1 + l2 + 1) as int;
    &&& c.states@.len() == l1 + l2 + 2
    &&& forall|i: int| 0 <= i < l1 && i != a.end_state ==> #[trigger] c.states@[i] == a.states@[i]
    &&& extended_state(a.states@[a.end_state as int], c.states@[a.end_state as int], seq![epsilon(e as usize)])
    &&& forall|i: int| 0 <= i < l2 && i != b.end_state ==>
        shifted_state(b.states@[i], #[trigger] c.states@[l1 + i], l1 as int)
    &&& shifted_state_with(b.states@[b.end_state as int], c.states@[l1 + b.end_state], l1 as int, seq![epsilon(e as usize)])
    &&& c.states@[s].transitions@ == seq![epsilon(a.start_state), epsilon((b.start_state + l1) as usize)]
    &&& c.states@[e].transitions@.len() == 0
    &&& c.start_state == s
    &&& c.end_state == e
}

/// A word of either alternative is a word of the alternation.
pub proof fn lemma_alternation_accepts(a: Nfa, b: Nfa, c: Nfa, w: Seq<char>)
    requires
        a.wf(),
        b.wf(),
        c.wf(),
        c.states@.len() <= usize::MAX,
        alternation_of(a, b, c),
        accepts_word(a, w) || accepts_word(b, w),
    ensures
        accepts_word(c, w),
{
    let l1 = a.states@.len() as int;
    let l2 = b.states@.len() as int;
    let s = l1 + l2;
    let e = l1 + l2 + 1;
    assert(w + Seq::<char>::empty() =~= w);
    assert(Seq::<char>::empty() + w =~= w);
    lemma_runs_epsilon(c, s, 0);
    lemma_runs_epsilon(c, s, 1);
    if accepts_word(a, w) {
        assert forall|i: int| 0 <= i < a.states@.len() implies prefix_shifted(#[trigger] a.states@[i], c.states@[i + 0], 0) by {
            if i == a.end_state {
                lemma_prefix_extended(a.states@[i], c.states@[i], seq![epsilon(e as usize)]);
            } else {
                lemma_prefix_equal(a.states@[i], c.states@[i]);
            }
        }
        lemma_embeds(a, c, 0);
        let n = choose|n: nat| runs(a, a.start_state as int, w, a.end_state as int, n);
        lemma_runs_embed(a, c, 0, a.start_state as int, w, a.end_state as int, n);
        let ae = a.end_state as int;
        let k = a.states@[ae].transitions@.len() as int;
        assert(c.states@[ae].transitions@[k] == epsilon(e as usize));
        lemma_runs_epsilon(c, ae, k);
        lemma_runs_compose(c, s, Seq::empty(), a.start_state as int, 1, w, ae, n);
        lemma_runs_compose(c, s, w, ae, 1 + n, Seq::empty(), e, 1);
        assert(runs(c, c.start_state as int, w, c.end_state as int, 1 + n + 1));
    } else {
        assert forall|i: int| 0 <= i < b.states@.len() implies prefix_shifted(#[trigger] b.states@[i], c.states@[i + l1], l1) by {
            assert(c.states@[i + l1] == c.states@[l1 + i]);
            lemma_prefix_moved(b.states@[i], c.states@[i + l1], l1, seq![epsilon(e as usize)]);
        }
        lemma_embeds(b, c, l1);
        let n = choose|n: nat| runs(b, b.start_state as int, w, b.end_state as int, n);
        lemma_runs_embed(b, c, l1, b.start_state as int, w, b.end_state as int, n);
        let be = b.end_state + l1;
        let k = b.states@[b.end_state as int].transitions@.len() as int;
        assert(c.states@[be].transitions@[k] == epsilon(e as usize)) by {
            let moved = b.states@[b.end_state as int].transitions@.map_values(|tr: NfaTransition| shift_transition(tr, l1));
            assert(c.states@[be].transitions@ == moved + seq![epsilon(e as usize)]);
        }
        lemma_runs_epsilon(c, be, k);
        lemma_runs_compose(c, s, Seq::empty(), b.start_state + l1, 1, w, be, n);
        lemma_runs_compose(c, s, w, be, 1 + n, Seq::empty(), e, 1);
        assert(runs(c, c.start_state as int, w, c.end_state as int, 1 + n + 1));
    }
}

/// The structure of the optional automaton `c` made of `a`.
pub open spec fn optional_of(a: Nfa, c: Nfa) -> bool {
    let l = a.states@.len() as int;
    &&& c.states@.len() == l + 1
    &&& forall|i: int| 0 <= i < l ==> #[trigger] c.states@[i] == a.states@[i]
    &&& c.states@[l].transitions@ == seq![epsilon(a.start_state), epsilon(a.end_state)]
    &&& c.start_state == l
    &&& c.end_state == a.end_state
}

/// The optional automaton accepts the empty word and the words of `a`.
pub proof fn lemma_optional_accepts(a: Nfa, c: Nfa, w: Seq<char>)
    requires
        a.wf(),
        c.wf(),
        c.states@.len() <= usize::MAX,
        optional_of(a, c),
        w.len() == 0 || accepts_word(a, w),
    ensures
        accepts_word(c, w),
{
    let l = a.states@.len() as int;
    lemma_runs_epsilon(c, l, 0);
    lemma_runs_epsilon(c, l, 1);
    if w.len() == 0 {
        assert(w =~= Seq::<char>::empty());
        assert(runs(c, c.start_state as int, w, c.end_state as int, 1));
    } else {
        assert forall|i: int| 0 <= i < a.states@.len() implies prefix_shifted(#[trigger] a.states@[i], c.states@[i + 0], 0) by {
            lemma_prefix_equal(a.states@[i], c.states@[i]);
        }
        lemma_embeds(a, c, 0);
        let n = choose|n: nat| runs(a, a.start_state as int, w, a.end_state as int, n);
        lemma_runs_embed(a, c, 0, a.start_state as int, w, a.end_state as int, n);
        lemma_runs_compose(c, l, Seq::empty(), a.start_state as int, 1, w, a.end_state as int, n);
        assert(Seq::<char>::empty() + w =~= w);
        assert(runs(c, c.start_state as int, w, c.end_state as int, 1 + n));
    }
}

/// The structure of the repeatable automaton `c` made of `a`.
pub open spec fn repeatable_of(a: Nfa, c: Nfa) -> bool {
    let l = a.states@.len() as int;
    &&& c.states@.len() == l + 2
    &&& forall|i: int| 0 <= i < l && i != a.end_state ==> #[trigger] c.states@[i] == a.states@[i]
    &&& extended_state(a.states@[a.end_state as int], c.states@[a.end_state as int],
        seq![epsilon((l + 1) as usize), epsilon(a.start_state)])
    &&& c.states@[l].transitions@ == seq![epsilon(a.start_state), epsilon(a.end_state)]
    &&& c.states@[l + 1].transitions@.len() == 0
    &&& c.start_state == l
    &&& c.end_state == l + 1
}

/// The repeatable automaton runs from the start to the end of `a` on `u`
/// followed by a word of `a`, where it runs so on `u`.
pub proof fn lemma_repeatable_loop(a: Nfa, c: Nfa, u: Seq<char>, n: nat, v: Seq<char>)
    requires
        a.wf(),
        c.wf(),
        c.states@.len() <= usize::MAX,
        repeatable_of(a, c),
        runs(c, a.start_state as int, u, a.end_state as int, n),
        accepts_word(a, v),
    ensures
        exists|m: nat| runs(c, a.start_state as int, u + v, a.end_state as int, m),
{
    let l = a.states@.len() as int;
    assert forall|i: int| 0 <= i < a.states@.len() implies prefix_shifted(#[trigger] a.states@[i], c.states@[i + 0], 0) by {
        if i == a.end_state {
            lemma_prefix_extended(a.states@[i], c.states@[i], seq![epsilon((l + 1) as usize), epsilon(a.start_state)]);
        } else {
            lemma_prefix_equal(a.states@[i], c.states@[i]);
        }
    }
    lemma_embeds(a, c, 0);
    let n2 = choose|n: nat| runs(a, a.start_state as int, v, a.end_state as int, n);
    lemma_runs_embed(a, c, 0, a.start_state as int, v, a.end_state as int, n2);
    let ae = a.end_state as int;
    let k = a.states@[ae].transitions@.len() as int + 1;
    assert(c.states@[ae].transitions@[k] == epsilon(a.start_state));
    lemma_runs_epsilon(c, ae, k);
    lemma_runs_compose(c, a.start_state as int, u, ae, n, Seq::empty(), a.start_state as int, 1);
    assert(u + Seq::<char>::empty() =~= u);
    lemma_runs_compose(c, a.start_state as int, u, a.start_state as int, n + 1, v, ae, n2);
}

/// The repeatable automaton runs from the start to the end of `a` on each
/// word of `a`.
pub proof fn lemma_repeatable_once(a: Nfa, c: Nfa, v: Seq<char>)
    requires
        a.wf(),
        c.wf(),
        c.states@.len() <= usize::MAX,
        repeatable_of(a, c),
        accepts_word(a, v),
    ensures
        exists|m: nat| runs(c, a.start_state as int, v, a.end_state as int, m),
{
    let l = a.states@.len() as int;
    assert forall|i: int| 0 <= i < a.states@.len() implies prefix_shifted(#[trigger] a.states@[i], c.states@[i + 0], 0) by {
        if i == a.end_state {
            lemma_prefix_extended(a.states@[i], c.states@[i], seq![epsilon((l + 1) as usize), epsilon(a.start_state)]);
        } else {
            lemma_prefix_equal(a.states@[i], c.states@[i]);
        }
    }
    lemma_embeds(a, c, 0);
    let n2 = choose|n: nat| runs(a, a.start_state as int, v, a.end_state as int, n);
    lemma_runs_embed(a, c, 0, a.start_state as int, v, a.end_state as int, n2);
}

/// The repeatable automaton accepts what it reads from the start to the end
/// of `a`, and the empty word.
pub proof fn lemma_repeatable_accepts(a: Nfa, c: Nfa, u: Seq<char>)
    requires
        a.wf(),
        c.wf(),
        c.states@.len() <= usize::MAX,
        repeatable_of(a, c),
        u.len() == 0 || exists|m: nat| runs(c, a.start_state as int, u, a.end_state as int, m),
    ensures
        accepts_word(c, u),
{
    let l = a.states@.len() as int;
    let ae = a.end_state as int;
    let k = a.states@[ae].transitions@.len() as int;
    assert(c.states@[ae].transitions@[k] == epsilon((l + 1) as usize));
    lemma_runs_epsilon(c, ae, k);
    lemma_runs_epsilon(c, l, 0);
    lemma_runs_epsilon(c, l, 1);
    let m: nat = if u.len() == 0 { 0 } else { choose|m: nat| runs(c, a.start_state as int, u, a.end_state as int, m) };
    if u.len() == 0 {
        assert(u =~= Seq::<char>::empty());
        lemma_runs_compose(c, l, Seq::empty(), ae, 1, Seq::empty(), l + 1, 1);
        assert(Seq::<char>::empty() + Seq::<char>::empty() =~= u);
        assert(runs(c, c.start_state as int, u, c.end_state as int, 2));
    } else {
        lemma_runs_compose(c, l, Seq::empty(), a.start_state as int, 1, u, ae, m);
        assert(Seq::<char>::empty() + u =~= u);
        lemma_runs_compose(c, l, u, ae, 1 + m, Seq::empty(), l + 1, 1);
        assert(u + Seq::<char>::empty() =~= u);
        assert(runs(c, c.start_state as int, u, c.end_state as int, 1 + m + 1));
    }
}

/// The structure of the concatenation `c` of `a` and `b`: `b` itself where
/// `a` is the automaton of the empty expression.
pub open spec fn concat_of(a: Nfa, b: Nfa, c: Nfa) -> bool {
    &&& a.spec_is_empty() ==> {
        &&& c.states@ == b.states@
        &&& c.start_state == b.start_state
        &&& c.end_state == b.end_state
    }
    &&& !a.spec_is_empty() ==> {
        let l1 = a.states@.len();
        &&& c.states@.len() == l1 + b.states@.len()
        &&& forall|i: int| 0 <= i < l1 && i != a.end_state ==> #[trigger] c.states@[i] == a.states@[i]
        &&& extended_state(a.states@[a.end_state as int], c.states@[a.end_state as int],
            seq![epsilon((b.start_state + l1) as usize)])
        &&& forall|i: int| 0 <= i < b.states@.len() ==>
            shifted_state(b.states@[i], #[trigger] c.states@[l1 + i], l1 as int)
        &&& c.start_state == a.start_state
        &&& c.end_state == b.end_state + l1
    }
}

/// The structure of the alternation `c` of `a` and `b`: `b` itself where `a`
/// is the automaton of the empty expression.
pub open spec fn alt_of(a: Nfa, b: Nfa, c: Nfa) -> bool {
    &&& a.spec_is_empty() ==> {
        &&& c.states@ == b.states@
        &&& c.start_state == b.start_state
        &&& c.end_state == b.end_state
    }
    &&& !a.spec_is_empty() ==> alternation_of(a, b, c)
}

/// Two automata with the same states, start and end accept the same words.
pub proof fn lemma_accepts_same_states(b: Nfa, c: Nfa, w: Seq<char>)
    requires
        b.wf(),
        c.wf(),
        c.states@ == b.states@,
        c.start_state == b.start_state,
        c.end_state == b.end_state,
        c.states@.len() <= usize::MAX,
        accepts_word(b, w),
    ensures
        accepts_word(c, w),
{
    assert forall|i: int| 0 <= i < b.states@.len() implies prefix_shifted(#[trigger] b.states@[i], c.states@[i + 0], 0) by {
        lemma_prefix_equal(b.states@[i], c.states@[i]);
    }
    lemma_embeds(b, c, 0);
    let n = choose|n: nat| runs(b, b.start_state as int, w, b.end_state as int, n);
    lemma_runs_embed(b, c, 0, b.start_state as int, w, b.end_state as int, n);
}

/// A copy of an automaton accepts what it accepts.
pub proof fn lemma_accepts_copy(a: Nfa, b: Nfa, w: Seq<char>)
    requires
        a.wf(),
        b.wf(),
        crate::nfa::nfa_same(b, a),
        accepts_word(a, w),
    ensures
        accepts_word(b, w),
{
    assert forall|i: int, k: int| 0 <= i < a.states@.len() && 0 <= k < a.states@[i].transitions@.len() implies {
        &&& k < b.states@[i + 0].transitions@.len()
        &&& trans_like(a.states@[i].transitions@[k], #[trigger] b.states@[i + 0].transitions@[k], 0)
    } by {
        assert(crate::nfa::state_same(b.states@[i], a.states@[i]));
        let t1 = a.states@[i].transitions@[k];
        let t2 = b.states@[i].transitions@[k];
        assert(crate::nfa::class_type_same(t2.character_class, t1.character_class));
        assert forall|ch: char| #[trigger] reads(t1, ch) == reads(t2, ch) by {
            match (t1.character_class, t2.character_class) {
                (Some(CharacterClassType::Kind(x)), Some(CharacterClassType::Kind(y))) => {
                    assert(crate::character_classes::kind_eq(y, x));
                },
                _ => {},
            }
        }
    }
    assert(embeds(a, b, 0));
    let n = choose|n: nat| runs(a, a.start_state as int, w, a.end_state as int, n);
    lemma_runs_embed(a, b, 0, a.start_state as int, w, a.end_state as int, n);
}

/// Concatenating the automaton of the next expression to that of the first
/// `i` expressions accepts the words of the first `i + 1`.
pub proof fn lemma_concat_step(subs: Seq<RegexAst>, i: int, a: Nfa, b: Nfa, c: Nfa)
    requires
        a.wf(),
        b.wf(),
        c.wf(),
        c.states@.len() <= usize::MAX,
        concat_of(a, b, c),
        0 <= i < subs.len(),
        forall|w: Seq<char>| #[trigger] concat_matches(subs, i, w) ==> accepts_word(a, w),
        forall|w: Seq<char>| #[trigger] regex_matches(subs[i], w) ==> accepts_word(b, w),
    ensures
        forall|w: Seq<char>| #[trigger] concat_matches(subs, i + 1, w) ==> accepts_word(c, w),
{
    assert forall|w: Seq<char>| #[trigger] concat_matches(subs, i + 1, w) implies accepts_word(c, w) by {
        let (u, v) = choose|u: Seq<char>, v: Seq<char>| #![trigger u + v]
            w == u + v && concat_matches(subs, i, u) && regex_matches(subs[i], v);
        if a.spec_is_empty() {
            lemma_empty_accepts(a, u);
            assert(w =~= v);
            lemma_accepts_same_states(b, c, v);
        } else {
            lemma_concat_accepts(a, b, c, u, v);
        }
    }
}

/// Joining the automaton of the next alternative to that of the first `i`
/// accepts the words of the first `i + 1`.
pub proof fn lemma_alternation_step(subs: Seq<RegexAst>, i: int, a: Nfa, b: Nfa, c: Nfa)
    requires
        a.wf(),
        b.wf(),
        c.wf(),
        c.states@.len() <= usize::MAX,
        alt_of(a, b, c),
        0 <= i < subs.len(),
        a.spec_is_empty() && i > 0 ==> b.spec_is_empty(),
        forall|w: Seq<char>| #[trigger] alt_matches(subs, i, w) ==> accepts_word(a, w),
        forall|w: Seq<char>| #[trigger] regex_matches(subs[i], w) ==> accepts_word(b, w),
    ensures
        forall|w: Seq<char>| #[trigger] alt_matches(subs, i + 1, w) ==> accepts_word(c, w),
{
    assert forall|w: Seq<char>| #[trigger] alt_matches(subs, i + 1, w) implies accepts_word(c, w) by {
        if a.spec_is_empty() {
            if regex_matches(subs[i], w) {
                lemma_accepts_same_states(b, c, w);
            } else {
                assert(alt_matches(subs, i, w));
                lemma_empty_accepts(a, w);
                lemma_empty_accepts(b, w);
                lemma_accepts_same_states(b, c, w);
            }
        } else {
            if regex_matches(subs[i], w) {
                assert(accepts_word(b, w));
            } else {
                assert(alt_matches(subs, i, w));
                assert(accepts_word(a, w));
            }
            lemma_alternation_accepts(a, b, c, w);
        }
    }
}

/// A word of `a + b` repetitions splits into one of `a` and one of `b`.
pub proof fn lemma_power_split(sub: RegexAst, a: nat, b: nat, w: Seq<char>)
    requires
        power(sub, (a + b) as int, w),
    ensures
        exists|w1: Seq<char>, w2: Seq<char>| #![trigger w1 + w2] w == w1 + w2 && power(sub, a as int, w1) && power(sub, b as int, w2),
    decreases b,
{
    if b == 0 {
        let e = Seq::<char>::empty();
        assert(w + e =~= w);
        assert(power(sub, 0, e));
        assert(w == w + e && power(sub, a as int, w) && power(sub, b as int, e));
    } else {
        let (u, v) = choose|u: Seq<char>, v: Seq<char>| #![trigger u + v]
            w == u + v && power(sub, (a + b) as int - 1, u) && regex_matches(sub, v);
        assert((a + b) as int - 1 == (a + (b - 1) as nat) as int);
        lemma_power_split(sub, a, (b - 1) as nat, u);
        let (u1, u2) = choose|w1: Seq<char>, w2: Seq<char>| #![trigger w1 + w2]
            u == w1 + w2 && power(sub, a as int, w1) && power(sub, (b - 1) as int, w2);
        assert(power(sub, b as int, u2 + v)) by {
            assert(u2 + v == u2 + v && power(sub, b as int - 1, u2) && regex_matches(sub, v));
        }
        assert(w =~= u1 + (u2 + v));
    }
}

/// Concatenating one more copy of the automaton of `sub` to one of `i`
/// repetitions accepts the words of `i + 1` repetitions.
pub proof fn lemma_power_step(sub: RegexAst, i: int, a: Nfa, b: Nfa, c: Nfa)
    requires
        a.wf(),
        b.wf(),
        c.wf(),
        c.states@.len() <= usize::MAX,
        concat_of(a, b, c),
        i >= 0,
        forall|w: Seq<char>| #[trigger] power(sub, i, w) ==> accepts_word(a, w),
        forall|w: Seq<char>| #[trigger] regex_matches(sub, w) ==> accepts_word(b, w),
    ensures
        forall|w: Seq<char>| #[trigger] power(sub, i + 1, w) ==> accepts_word(c, w),
{
    assert forall|w: Seq<char>| #[trigger] power(sub, i + 1, w) implies accepts_word(c, w) by {
        let (u, v) = choose|u: Seq<char>, v: Seq<char>| #![trigger u + v]
            w == u + v && power(sub, i, u) && regex_matches(sub, v);
        if a.spec_is_empty() {
            lemma_empty_accepts(a, u);
            assert(w =~= v);
            lemma_accepts_same_states(b, c, v);
        } else {
            lemma_concat_accepts(a, b, c, u, v);
        }
    }
}

/// Concatenating one more optional copy of the automaton of `sub` to one of
/// `min` to `j` repetitions accepts the words of `min` to `j + 1`
/// repetitions.
pub proof fn lemma_optional_step(sub: RegexAst, min: int, j: int, a: Nfa, z: Nfa, c: Nfa)
    requires
        a.wf(),
        z.wf(),
        c.wf(),
        c.states@.len() <= usize::MAX,
        concat_of(a, z, c),
        0 <= min <= j,
        forall|k: int, w: Seq<char>| min <= k <= j && #[trigger] power(sub, k, w) ==> accepts_word(a, w),
        accepts_word(z, Seq::empty()),
        forall|w: Seq<char>| #[trigger] regex_matches(sub, w) ==> accepts_word(z, w),
    ensures
        forall|k: int, w: Seq<char>| min <= k <= j + 1 && #[trigger] power(sub, k, w) ==> accepts_word(c, w),
{
    assert forall|k: int, w: Seq<char>| min <= k <= j + 1 && #[trigger] power(sub, k, w) implies accepts_word(c, w) by {
        let e = Seq::<char>::empty();
        if k <= j {
            assert(accepts_word(a, w));
            if a.spec_is_empty() {
                lemma_empty_accepts(a, w);
                assert(w =~= e);
                lemma_accepts_same_states(z, c, e);
            } else {
                lemma_concat_accepts(a, z, c, w, e);
                assert(w + e =~= w);
            }
        } else {
            let (u, v) = choose|u: Seq<char>, v: Seq<char>| #![trigger u + v]
                w == u + v && power(sub, k - 1, u) && regex_matches(sub, v);
            assert(accepts_word(a, u));
            if a.spec_is_empty() {
                lemma_empty_accepts(a, u);
                assert(w =~= v);
                lemma_accepts_same_states(z, c, v);
            } else {
                lemma_concat_accepts(a, z, c, u, v);
            }
        }
    }
}

/// The repeatable automaton of `a` runs from the start to the end of `a` on
/// each word of one or more repetitions of `sub`, where `a` accepts the words
/// of `sub`.
pub proof fn lemma_repeatable_power(sub: RegexAst, a: Nfa, c: Nfa, m: int, w: Seq<char>)
    requires
        a.wf(),
        c.wf(),
        c.states@.len() <= usize::MAX,
        repeatable_of(a, c),
        m >= 1,
        power(sub, m, w),
        forall|v: Seq<char>| #[trigger] regex_matches(sub, v) ==> accepts_word(a, v),
    ensures
        exists|n: nat| runs(c, a.start_state as int, w, a.end_state as int, n),
    decreases m,
{
    let (u, v) = choose|u: Seq<char>, v: Seq<char>| #![trigger u + v]
        w == u + v && power(sub, m - 1, u) && regex_matches(sub, v);
    if m == 1 {
        assert(u.len() == 0);
        assert(w =~= v);
        lemma_repeatable_once(a, c, v);
    } else {
        lemma_repeatable_power(sub, a, c, m - 1, u);
        let n = choose|n: nat| runs(c, a.start_state as int, u, a.end_state as int, n);
        lemma_repeatable_loop(a, c, u, n, v);
    }
}

/// The repeatable automaton of `a` accepts each word of any number of
/// repetitions of `sub`, where `a` accepts the words of `sub`.
pub proof fn lemma_repeatable_words(sub: RegexAst, a: Nfa, c: Nfa, m: int, w: Seq<char>)
    requires
        a.wf(),
        c.wf(),
        c.states@.len() <= usize::MAX,
        repeatable_of(a, c),
        m >= 0,
        power(sub, m, w),
        forall|v: Seq<char>| #[trigger] regex_matches(sub, v) ==> accepts_word(a, v),
    ensures
        accepts_word(c, w),
{
    if m >= 1 {
        lemma_repeatable_power(sub, a, c, m, w);
    }
    lemma_repeatable_accepts(a, c, w);
}

/// Appending a state and a transition to it on a character extends a run
/// that reads `w` to one that reads `w` and the character.
pub proof fn lemma_literal_step(a: Nfa, c: Nfa, w: Seq<char>, i: int, ch: char)
    requires
        a.wf(),
        c.wf(),
        c.states@.len() <= usize::MAX,
        0 <= i < a.states@.len(),
        c.states@.len() == a.states@.len() + 1,
        forall|j: int| 0 <= j < a.states@.len() && j != i ==> #[trigger] c.states@[j] == a.states@[j],
        c.states@[i].transitions@ == a.states@[i].transitions@.push(NfaTransition {
            character_class: Some(CharacterClassType::Kind(crate::character_classes::CharacterClassKind::Literal(ch))),
            target: (i + 1) as usize,
        }),
        runs(a, 0, w, i, i as nat),
    ensures
        runs(c, 0, w.push(ch), i + 1, (i + 1) as nat),
        a.states@[i].transitions@.len() == 0 ==> chain_link(c, i, ch),
{
    assert forall|j: int| 0 <= j < a.states@.len() implies prefix_shifted(#[trigger] a.states@[j], c.states@[j + 0], 0) by {
        if j == i {
            let extra = seq![c.states@[i].transitions@.last()];
            assert forall|k: int| 0 <= k < a.states@[j].transitions@.len() implies
                #[trigger] c.states@[j].transitions@[k] == shift_transition(a.states@[j].transitions@[k], 0) by {
                let t = a.states@[j].transitions@[k];
                assert(shift_transition(t, 0) == t);
            }
        } else {
            lemma_prefix_equal(a.states@[j], c.states@[j]);
        }
    }
    lemma_embeds(a, c, 0);
    lemma_runs_embed(a, c, 0, 0, w, i, i as nat);
    let k = a.states@[i].transitions@.len() as int;
    let tr = c.states@[i].transitions@[k];
    assert(reads(tr, ch));
    let one = seq![ch];
    assert(one.drop_first() =~= Seq::<char>::empty());
    assert(runs(c, i + 1, one.drop_first(), i + 1, 0));
    assert(runs(c, i, one, i + 1, 1));
    lemma_runs_compose(c, 0, w, i, i as nat, one, i + 1, 1);
    assert(w + one =~= w.push(ch));
}

/// Concatenating the repeatable automaton of `sub`'s to one of `min`
/// repetitions accepts the words of `min` or more repetitions.
pub proof fn lemma_star_final(sub: RegexAst, min: int, a: Nfa, zb: Nfa, z: Nfa, c: Nfa)
    requires
        a.wf(),
        zb.wf(),
        z.wf(),
        c.wf(),
        z.states@.len() <= usize::MAX,
        c.states@.len() <= usize::MAX,
        min >= 0,
        concat_of(a, z, c),
        repeatable_of(zb, z),
        forall|w: Seq<char>| #[trigger] power(sub, min, w) ==> accepts_word(a, w),
        forall|v: Seq<char>| #[trigger] regex_matches(sub, v) ==> accepts_word(zb, v),
    ensures
        forall|k: int, w: Seq<char>| min <= k && #[trigger] power(sub, k, w) ==> accepts_word(c, w),
{
    assert forall|k: int, w: Seq<char>| min <= k && #[trigger] power(sub, k, w) implies accepts_word(c, w) by {
        assert(((min as nat) + ((k - min) as nat)) as int == k);
        lemma_power_split(sub, min as nat, (k - min) as nat, w);
        let (w1, w2) = choose|w1: Seq<char>, w2: Seq<char>| #![trigger w1 + w2]
            w == w1 + w2 && power(sub, min, w1) && power(sub, k - min, w2);
        assert(accepts_word(a, w1));
        lemma_repeatable_words(sub, zb, z, k - min, w2);
        if a.spec_is_empty() {
            lemma_empty_accepts(a, w1);
            assert(w =~= w2);
            lemma_accepts_same_states(z, c, w2);
        } else {
            lemma_concat_accepts(a, z, c, w1, w2);
        }
    }
}

/// The states of `a` sit in `c` at `off..`, each with exactly the moved
/// transitions of `a`'s state, except `a`'s end state.
pub open spec fn region_of(a: Nfa, c: Nfa, off: int) -> bool {
    &&& off >= 0
    &&& a.states@.len() + off <= c.states@.len()
    &&& forall|i: int| 0 <= i < a.states@.len() && i != a.end_state ==>
        (#[trigger] c.states@[i + off]).transitions@ == a.states@[i].transitions@.map_values(|tr: NfaTransition| shift_transition(tr, off))
}

/// A run of an automaton from a state of a region either stays a run of the
/// region's automaton, or reaches its end state first and goes on from there.
pub proof fn lemma_runs_exit(a: Nfa, c: Nfa, off: int, s: int, w: Seq<char>, t: int, n: nat)
    -> (r: Option<(Seq<char>, Seq<char>, nat, nat)>)
    requires
        a.wf(),
        c.states@.len() <= usize::MAX,
        region_of(a, c, off),
        0 <= s < a.states@.len(),
        runs(c, s + off, w, t, n),
    ensures
        match r {
            None => 0 <= t - off < a.states@.len() && runs(a, s, w, t - off, n),
            Some((u, v, n1, n2)) => {
                &&& w == u + v
                &&& n1 + n2 == n
                &&& runs(a, s, u, a.end_state as int, n1)
                &&& runs(c, a.end_state + off, v, t, n2)
            },
        },
    decreases n,
{
    let e = Seq::<char>::empty();
    if s == a.end_state {
        assert(e + w =~= w);
        assert(runs(a, s, e, a.end_state as int, 0));
        return Some((e, w, 0, n));
    }
    if n == 0 {
        assert(runs(a, s, w, t - off, 0));
        return None;
    }
    let so = s + off;
    let k = choose|k: int| #![trigger c.states@[so].transitions@[k]]
        0 <= k < c.states@[so].transitions@.len() && {
            let tr = c.states@[so].transitions@[k];
            ||| tr.character_class is None && runs(c, tr.target as int, w, t, (n - 1) as nat)
            ||| w.len() > 0 && reads(tr, w[0]) && runs(c, tr.target as int, w.drop_first(), t, (n - 1) as nat)
        };
    let moved = a.states@[s].transitions@.map_values(|tr: NfaTransition| shift_transition(tr, off));
    assert(c.states@[s + off].transitions@ == moved);
    let ta = a.states@[s].transitions@[k];
    let tc = c.states@[so].transitions@[k];
    assert(tc == moved[k]);
    assert(ta.target < a.states@.len());
    assert(tc.target == ta.target + off);
    assert(forall|ch: char| #[trigger] reads(ta, ch) == reads(tc, ch));
    let tgt = ta.target as int;
    if tc.character_class is None && runs(c, tc.target as int, w, t, (n - 1) as nat) {
        let rr = lemma_runs_exit(a, c, off, tgt, w, t, (n - 1) as nat);
        match rr {
            None => {
                assert(runs(a, s, w, t - off, n));
                None
            },
            Some((u, v, n1, n2)) => {
                assert(runs(a, s, u, a.end_state as int, n1 + 1));
                Some((u, v, n1 + 1, n2))
            },
        }
    } else {
        let rr = lemma_runs_exit(a, c, off, tgt, w.drop_first(), t, (n - 1) as nat);
        match rr {
            None => {
                assert(runs(a, s, w, t - off, n));
                None
            },
            Some((u1, v, n1, n2)) => {
                let u = seq![w[0]] + u1;
                assert(u[0] == w[0]);
                assert(u.drop_first() =~= u1);
                assert(runs(a, s, u, a.end_state as int, n1 + 1));
                assert(w =~= u + v) by {
                    assert(w =~= seq![w[0]] + w.drop_first());
                }
                Some((u, v, n1 + 1, n2))
            },
        }
    }
}

/// A run from a state without transitions reads nothing and stays.
pub proof fn lemma_runs_stuck(c: Nfa, s: int, w: Seq<char>, t: int, n: nat)
    requires
        0 <= s < c.states@.len(),
        c.states@[s].transitions@.len() == 0,
        runs(c, s, w, t, n),
    ensures
        n == 0,
        t == s,
        w.len() == 0,
{
}

/// A run of some steps from a state whose transitions are all epsilon
/// transitions goes on from the target of one of them.
pub proof fn lemma_runs_first_epsilon(c: Nfa, s: int, w: Seq<char>, t: int, n: nat) -> (k: int)
    requires
        n > 0,
        runs(c, s, w, t, n),
        forall|j: int| 0 <= j < c.states@[s].transitions@.len() ==> (#[trigger] c.states@[s].transitions@[j]).character_class is None,
    ensures
        0 <= k < c.states@[s].transitions@.len(),
        runs(c, c.states@[s].transitions@[k].target as int, w, t, (n - 1) as nat),
{
    let k = choose|k: int| #![trigger c.states@[s].transitions@[k]]
        0 <= k < c.states@[s].transitions@.len() && {
            let tr = c.states@[s].transitions@[k];
            ||| tr.character_class is None && runs(c, tr.target as int, w, t, (n - 1) as nat)
            ||| w.len() > 0 && reads(tr, w[0]) && runs(c, tr.target as int, w.drop_first(), t, (n - 1) as nat)
        };
    assert(c.states@[s].transitions@[k].character_class is None);
    k
}

/// An automaton accepts what a copy of it accepts.
pub proof fn lemma_accepts_copy_back(a: Nfa, b: Nfa, w: Seq<char>)
    requires
        a.wf(),
        b.wf(),
        crate::nfa::nfa_same(b, a),
        accepts_word(b, w),
    ensures
        accepts_word(a, w),
{
    assert forall|i: int, k: int| 0 <= i < b.states@.len() && 0 <= k < b.states@[i].transitions@.len() implies {
        &&& k < a.states@[i + 0].transitions@.len()
        &&& trans_like(b.states@[i].transitions@[k], #[trigger] a.states@[i + 0].transitions@[k], 0)
    } by {
        assert(crate::nfa::state_same(b.states@[i], a.states@[i]));
        let t1 = b.states@[i].transitions@[k];
        let t2 = a.states@[i].transitions@[k];
        assert(crate::nfa::class_type_same(t1.character_class, t2.character_class));
        assert forall|ch: char| #[trigger] reads(t1, ch) == reads(t2, ch) by {
            match (t1.character_class, t2.character_class) {
                (Some(CharacterClassType::Kind(x)), Some(CharacterClassType::Kind(y))) => {
                    assert(crate::character_classes::kind_eq(x, y));
                },
                _ => {},
            }
        }
    }
    assert(embeds(b, a, 0));
    let n = choose|n: nat| runs(b, b.start_state as int, w, b.end_state as int, n);
    lemma_runs_embed(b, a, 0, b.start_state as int, w, b.end_state as int, n);
}

/// A word of `sub` followed by `m` repetitions is `m + 1` repetitions.
pub proof fn lemma_power_prepend(sub: RegexAst, u: Seq<char>, m: int, v: Seq<char>)
    requires
        m >= 0,
        regex_matches(sub, u),
        power(sub, m, v),
    ensures
        power(sub, m + 1, u + v),
    decreases m,
{
    let e = Seq::<char>::empty();
    if m == 0 {
        assert(v =~= e);
        assert(u + v =~= e + u);
        assert(power(sub, 0, e));
        assert(u + v == e + u && power(sub, m, e) && regex_matches(sub, u));
    } else {
        let (v1, v2) = choose|x: Seq<char>, y: Seq<char>| #![trigger x + y] v == x + y && power(sub, m - 1, x) && regex_matches(sub, y);
        lemma_power_prepend(sub, u, m - 1, v1);
        assert(u + v =~= (u + v1) + v2);
        assert((u + v1) + v2 == (u + v1) + v2 && power(sub, m, u + v1) && regex_matches(sub, v2));
    }
}

/// Repetitions one after the other are repetitions.
pub proof fn lemma_power_join(sub: RegexAst, a: int, u: Seq<char>, b: int, v: Seq<char>)
    requires
        a >= 0,
        b >= 0,
        power(sub, a, u),
        power(sub, b, v),
    ensures
        power(sub, a + b, u + v),
    decreases b,
{
    if b == 0 {
        assert(u + v =~= u);
    } else {
        let (v1, v2) = choose|x: Seq<char>, y: Seq<char>| #![trigger x + y] v == x + y && power(sub, b - 1, x) && regex_matches(sub, y);
        lemma_power_join(sub, a, u, b - 1, v1);
        assert(u + v =~= (u + v1) + v2);
        assert((u + v1) + v2 == (u + v1) + v2 && power(sub, a + b - 1, u + v1) && regex_matches(sub, v2));
    }
}

/// Moving transitions by nothing keeps them.
pub proof fn lemma_shift_zero(ts: Seq<NfaTransition>)
    ensures
        ts.map_values(|tr: NfaTransition| shift_transition(tr, 0)) == ts,
{
    let m = ts.map_values(|tr: NfaTransition| shift_transition(tr, 0));
    assert forall|k: int| 0 <= k < ts.len() implies m[k] == ts[k] by {
        let t = ts[k];
        assert(shift_transition(t, 0) == t);
    }
    assert(m =~= ts);
}

/// The states of `a` other than its end state, kept in `c`, make a region
/// of `c` at 0.
pub proof fn lemma_region_kept(a: Nfa, c: Nfa)
    requires
        a.states@.len() <= c.states@.len(),
        forall|i: int| 0 <= i < a.states@.len() && i != a.end_state ==> #[trigger] c.states@[i] == a.states@[i],
    ensures
        region_of(a, c, 0),
{
    assert forall|i: int| 0 <= i < a.states@.len() && i != a.end_state implies
        (#[trigger] c.states@[i + 0]).transitions@ == a.states@[i].transitions@.map_values(|tr: NfaTransition| shift_transition(tr, 0)) by {
        lemma_shift_zero(a.states@[i].transitions@);
        assert(c.states@[i] == a.states@[i]);
    }
}

/// A word of a concatenation is a word of the first automaton followed by
/// one of the second.
pub proof fn lemma_concat_sound(a: Nfa, b: Nfa, c: Nfa, w: Seq<char>) -> (r: (Seq<char>, Seq<char>))
    requires
        a.wf(),
        b.wf(),
        c.wf(),
        c.states@.len() <= usize::MAX,
        concat_of(a, b, c),
        crate::nfa::end_free(a),
        crate::nfa::end_free(b),
        accepts_word(c, w),
    ensures
        w == r.0 + r.1,
        accepts_word(a, r.0),
        accepts_word(b, r.1),
{
    let e = Seq::<char>::empty();
    if a.spec_is_empty() {
        lemma_empty_accepts(a, e);
        lemma_accepts_same_states(c, b, w);
        assert(w =~= e + w);
        return (e, w);
    }
    let l1 = a.states@.len() as int;
    let n = choose|n: nat| runs(c, c.start_state as int, w, c.end_state as int, n);
    lemma_region_kept(a, c);
    let rr = lemma_runs_exit(a, c, 0, a.start_state as int, w, c.end_state as int, n);
    let (u, v, n1, n2) = rr->Some_0;
    assert(accepts_word(a, u));
    let ae = a.end_state as int;
    assert(c.states@[ae].transitions@ =~= seq![epsilon((b.start_state + l1) as usize)]);
    let k = lemma_runs_first_epsilon(c, ae, v, c.end_state as int, n2);
    assert(k == 0);
    assert forall|i: int| 0 <= i < b.states@.len() && i != b.end_state implies
        (#[trigger] c.states@[i + l1]).transitions@ == b.states@[i].transitions@.map_values(|tr: NfaTransition| shift_transition(tr, l1)) by {
        assert(c.states@[i + l1] == c.states@[l1 + i]);
    }
    assert(region_of(b, c, l1));
    let rb = lemma_runs_exit(b, c, l1, b.start_state as int, v, c.end_state as int, (n2 - 1) as nat);
    match rb {
        None => {
            assert(accepts_word(b, v));
            (u, v)
        },
        Some((v1, v2, m1, m2)) => {
            let be = b.end_state + l1;
            assert(shifted_state(b.states@[b.end_state as int], c.states@[l1 + b.end_state], l1));
            assert(c.states@[be].transitions@.len() == 0);
            lemma_runs_stuck(c, be, v2, c.end_state as int, m2);
            assert(v =~= v1);
            assert(accepts_word(b, v1));
            (u, v)
        },
    }
}

/// A word of an alternation is a word of one of the alternatives.
pub proof fn lemma_alternation_sound(a: Nfa, b: Nfa, c: Nfa, w: Seq<char>)
    requires
        a.wf(),
        b.wf(),
        c.wf(),
        c.states@.len() <= usize::MAX,
        alt_of(a, b, c),
        crate::nfa::end_free(a),
        crate::nfa::end_free(b),
        accepts_word(c, w),
    ensures
        accepts_word(a, w) || accepts_word(b, w),
{
    if a.spec_is_empty() {
        lemma_accepts_same_states(c, b, w);
        return;
    }
    let l1 = a.states@.len() as int;
    let l2 = b.states@.len() as int;
    let s = l1 + l2;
    let e = l1 + l2 + 1;
    let n = choose|n: nat| runs(c, c.start_state as int, w, c.end_state as int, n);
    let k = lemma_runs_first_epsilon(c, s, w, e, n);
    if k == 0 {
        lemma_region_kept(a, c);
        let rr = lemma_runs_exit(a, c, 0, a.start_state as int, w, e, (n - 1) as nat);
        let (u, v, n1, n2) = rr->Some_0;
        let ae = a.end_state as int;
        assert(c.states@[ae].transitions@ =~= seq![epsilon(e as usize)]);
        let k2 = lemma_runs_first_epsilon(c, ae, v, e, n2);
        assert(k2 == 0);
        lemma_runs_stuck(c, e, v, e, (n2 - 1) as nat);
        assert(w =~= u);
    } else {
        assert forall|i: int| 0 <= i < b.states@.len() && i != b.end_state implies
            (#[trigger] c.states@[i + l1]).transitions@ == b.states@[i].transitions@.map_values(|tr: NfaTransition| shift_transition(tr, l1)) by {
            assert(c.states@[i + l1] == c.states@[l1 + i]);
        }
        let rr = lemma_runs_exit(b, c, l1, b.start_state as int, w, e, (n - 1) as nat);
        let (u, v, n1, n2) = rr->Some_0;
        let be = b.end_state + l1;
        let moved = b.states@[b.end_state as int].transitions@.map_values(|tr: NfaTransition| shift_transition(tr, l1));
        assert(moved.len() == 0);
        assert(c.states@[be].transitions@ =~= seq![epsilon(e as usize)]);
        let k2 = lemma_runs_first_epsilon(c, be, v, e, n2);
        assert(k2 == 0);
        lemma_runs_stuck(c, e, v, e, (n2 - 1) as nat);
        assert(w =~= u);
    }
}

/// A word of the optional automaton is empty or a word of `a`.
pub proof fn lemma_optional_sound(a: Nfa, c: Nfa, w: Seq<char>)
    requires
        a.wf(),
        c.wf(),
        c.states@.len() <= usize::MAX,
        optional_of(a, c),
        crate::nfa::end_free(a),
        accepts_word(c, w),
    ensures
        w.len() == 0 || accepts_word(a, w),
{
    let l = a.states@.len() as int;
    let ae = a.end_state as int;
    let n = choose|n: nat| runs(c, c.start_state as int, w, c.end_state as int, n);
    let k = lemma_runs_first_epsilon(c, l, w, ae, n);
    assert(c.states@[ae] == a.states@[ae]);
    if k == 1 {
        lemma_runs_stuck(c, ae, w, ae, (n - 1) as nat);
    } else {
        lemma_region_kept(a, c);
        let rr = lemma_runs_exit(a, c, 0, a.start_state as int, w, ae, (n - 1) as nat);
        match rr {
            None => {},
            Some((u, v, n1, n2)) => {
                lemma_runs_stuck(c, ae, v, ae, n2);
                assert(w =~= u);
            },
        }
    }
}

/// A run of the repeatable automaton from the end of `a` to its end reads
/// repetitions of `sub`, where `a` accepts only words of `sub`.
pub proof fn lemma_repeatable_from_end(sub: RegexAst, a: Nfa, c: Nfa, w: Seq<char>, n: nat) -> (m: int)
    requires
        a.wf(),
        c.wf(),
        c.states@.len() <= usize::MAX,
        repeatable_of(a, c),
        crate::nfa::end_free(a),
        forall|v: Seq<char>| #[trigger] accepts_word(a, v) ==> regex_matches(sub, v),
        runs(c, a.end_state as int, w, c.end_state as int, n),
    ensures
        m >= 0,
        power(sub, m, w),
    decreases n,
{
    let l = a.states@.len() as int;
    let ae = a.end_state as int;
    assert(c.states@[ae].transitions@ =~= seq![epsilon((l + 1) as usize), epsilon(a.start_state)]);
    let k = lemma_runs_first_epsilon(c, ae, w, l + 1, n);
    if k == 0 {
        lemma_runs_stuck(c, l + 1, w, l + 1, (n - 1) as nat);
        0
    } else {
        lemma_region_kept(a, c);
        let rr = lemma_runs_exit(a, c, 0, a.start_state as int, w, l + 1, (n - 1) as nat);
        let (u, v, n1, n2) = rr->Some_0;
        assert(accepts_word(a, u));
        let m = lemma_repeatable_from_end(sub, a, c, v, n2);
        lemma_power_prepend(sub, u, m, v);
        m + 1
    }
}

/// A word of the repeatable automaton is made of repetitions of `sub`, where
/// `a` accepts only words of `sub`.
pub proof fn lemma_repeatable_sound(sub: RegexAst, a: Nfa, c: Nfa, w: Seq<char>) -> (m: int)
    requires
        a.wf(),
        c.wf(),
        c.states@.len() <= usize::MAX,
        repeatable_of(a, c),
        crate::nfa::end_free(a),
        forall|v: Seq<char>| #[trigger] accepts_word(a, v) ==> regex_matches(sub, v),
        accepts_word(c, w),
    ensures
        m >= 0,
        power(sub, m, w),
{
    let l = a.states@.len() as int;
    let n = choose|n: nat| runs(c, c.start_state as int, w, c.end_state as int, n);
    let k = lemma_runs_first_epsilon(c, l, w, l + 1, n);
    if k == 1 {
        lemma_repeatable_from_end(sub, a, c, w, (n - 1) as nat)
    } else {
        lemma_region_kept(a, c);
        let rr = lemma_runs_exit(a, c, 0, a.start_state as int, w, l + 1, (n - 1) as nat);
        let (u, v, n1, n2) = rr->Some_0;
        assert(accepts_word(a, u));
        let m = lemma_repeatable_from_end(sub, a, c, v, n2);
        lemma_power_prepend(sub, u, m, v);
        m + 1
    }
}

/// Whether `w` is made of between `lo` and `hi` repetitions of `sub`.
pub open spec fn power_between(sub: RegexAst, lo: int, hi: int, w: Seq<char>) -> bool {
    exists|k: int| lo <= k <= hi && #[trigger] power(sub, k, w)
}

/// The words of the concatenation of the automata of the first `i`
/// expressions and of the next are words of the first `i + 1`.
pub proof fn lemma_concat_step_sound(subs: Seq<RegexAst>, i: int, a: Nfa, b: Nfa, c: Nfa)
    requires
        a.wf(),
        b.wf(),
        c.wf(),
        c.states@.len() <= usize::MAX,
        concat_of(a, b, c),
        crate::nfa::end_free(a),
        crate::nfa::end_free(b),
        0 <= i < subs.len(),
        forall|w: Seq<char>| #[trigger] accepts_word(a, w) ==> concat_matches(subs, i, w),
        forall|w: Seq<char>| #[trigger] accepts_word(b, w) ==> regex_matches(subs[i], w),
    ensures
        forall|w: Seq<char>| #[trigger] accepts_word(c, w) ==> concat_matches(subs, i + 1, w),
{
    assert forall|w: Seq<char>| #[trigger] accepts_word(c, w) implies concat_matches(subs, i + 1, w) by {
        let (u, v) = lemma_concat_sound(a, b, c, w);
        assert(concat_matches(subs, i, u));
        assert(regex_matches(subs[i], v));
        assert(w == u + v && concat_matches(subs, i, u) && regex_matches(subs[i], v));
    }
}

/// The words of the alternation of the automata of the first `i`
/// alternatives and of the next are words of the first `i + 1`.
pub proof fn lemma_alternation_step_sound(subs: Seq<RegexAst>, i: int, a: Nfa, b: Nfa, c: Nfa)
    requires
        a.wf(),
        b.wf(),
        c.wf(),
        c.states@.len() <= usize::MAX,
        alt_of(a, b, c),
        crate::nfa::end_free(a),
        crate::nfa::end_free(b),
        0 <= i < subs.len(),
        i == 0 ==> a.spec_is_empty(),
        i > 0 ==> forall|w: Seq<char>| #[trigger] accepts_word(a, w) ==> alt_matches(subs, i, w),
        forall|w: Seq<char>| #[trigger] accepts_word(b, w) ==> regex_matches(subs[i], w),
    ensures
        forall|w: Seq<char>| #[trigger] accepts_word(c, w) ==> alt_matches(subs, i + 1, w),
{
    assert forall|w: Seq<char>| #[trigger] accepts_word(c, w) implies alt_matches(subs, i + 1, w) by {
        if a.spec_is_empty() {
            lemma_accepts_same_states(c, b, w);
            assert(regex_matches(subs[i], w));
        } else {
            lemma_alternation_sound(a, b, c, w);
            if accepts_word(a, w) {
                assert(alt_matches(subs, i, w));
            } else {
                assert(regex_matches(subs[i], w));
            }
        }
    }
}

/// The words of one more copy of the automaton of `sub` after one of `i`
/// repetitions are words of `i + 1` repetitions.
pub proof fn lemma_power_step_sound(sub: RegexAst, i: int, a: Nfa, b: Nfa, c: Nfa)
    requires
        a.wf(),
        b.wf(),
        c.wf(),
        c.states@.len() <= usize::MAX,
        concat_of(a, b, c),
        crate::nfa::end_free(a),
        crate::nfa::end_free(b),
        i >= 0,
        forall|w: Seq<char>| #[trigger] accepts_word(a, w) ==> power(sub, i, w),
        forall|w: Seq<char>| #[trigger] accepts_word(b, w) ==> regex_matches(sub, w),
    ensures
        forall|w: Seq<char>| #[trigger] accepts_word(c, w) ==> power(sub, i + 1, w),
{
    assert forall|w: Seq<char>| #[trigger] accepts_word(c, w) implies power(sub, i + 1, w) by {
        let (u, v) = lemma_concat_sound(a, b, c, w);
        assert(power(sub, i, u));
        assert(regex_matches(sub, v));
        assert(w == u + v && power(sub, i + 1 - 1, u) && regex_matches(sub, v));
    }
}

/// The words of one more optional copy of the automaton of `sub` after one
/// of `min` to `j` repetitions are words of `min` to `j + 1` repetitions.
pub proof fn lemma_optional_step_sound(sub: RegexAst, min: int, j: int, a: Nfa, z: Nfa, c: Nfa)
    requires
        a.wf(),
        z.wf(),
        c.wf(),
        c.states@.len() <= usize::MAX,
        concat_of(a, z, c),
        crate::nfa::end_free(a),
        crate::nfa::end_free(z),
        0 <= min <= j,
        forall|w: Seq<char>| #[trigger] accepts_word(a, w) ==> power_between(sub, min, j, w),
        forall|w: Seq<char>| #[trigger] accepts_word(z, w) ==> w.len() == 0 || regex_matches(sub, w),
    ensures
        forall|w: Seq<char>| #[trigger] accepts_word(c, w) ==> power_between(sub, min, j + 1, w),
{
    assert forall|w: Seq<char>| #[trigger] accepts_word(c, w) implies power_between(sub, min, j + 1, w) by {
        let (u, v) = lemma_concat_sound(a, z, c, w);
        assert(power_between(sub, min, j, u));
        let k = choose|k: int| min <= k <= j && #[trigger] power(sub, k, u);
        if v.len() == 0 {
            assert(w =~= u);
            assert(power(sub, k, w));
        } else {
            assert(regex_matches(sub, v));
            assert(w == u + v && power(sub, k + 1 - 1, u) && regex_matches(sub, v));
            assert(power(sub, k + 1, w));
        }
    }
}

/// The words of the repeatable automaton of `sub`'s after one of `min`
/// repetitions are words of `min` or more repetitions.
pub proof fn lemma_star_final_sound(sub: RegexAst, min: int, a: Nfa, zb: Nfa, z: Nfa, c: Nfa)
    requires
        a.wf(),
        zb.wf(),
        z.wf(),
        c.wf(),
        z.states@.len() <= usize::MAX,
        c.states@.len() <= usize::MAX,
        min >= 0,
        concat_of(a, z, c),
        repeatable_of(zb, z),
        crate::nfa::end_free(a),
        crate::nfa::end_free(zb),
        crate::nfa::end_free(z),
        forall|w: Seq<char>| #[trigger] accepts_word(a, w) ==> power(sub, min, w),
        forall|v: Seq<char>| #[trigger] accepts_word(zb, v) ==> regex_matches(sub, v),
    ensures
        forall|w: Seq<char>| #[trigger] accepts_word(c, w) ==> exists|k: int| min <= k && #[trigger] power(sub, k, w),
{
    assert forall|w: Seq<char>| #[trigger] accepts_word(c, w) implies exists|k: int| min <= k && #[trigger] power(sub, k, w) by {
        let (u, v) = lemma_concat_sound(a, z, c, w);
        assert(power(sub, min, u));
        let m = lemma_repeatable_sound(sub, zb, z, v);
        lemma_power_join(sub, min, u, m, v);
        assert(power(sub, min + m, w));
    }
}

/// Whether state `q` has one transition, on `ch`, to `q + 1`.
pub open spec fn chain_link(c: Nfa, q: int, ch: char) -> bool {
    &&& c.states@[q].transitions@.len() == 1
    &&& c.states@[q].transitions@[0].character_class
        == Some(CharacterClassType::Kind(crate::character_classes::CharacterClassKind::Literal(ch)))
    &&& c.states@[q].transitions@[0].target == q + 1
}

/// In a chain of states `j`, each with one transition on `chars[j]` to
/// `j + 1`, up to a last state without transitions, a run from `j` to the
/// last state reads the characters from `j` on.
pub proof fn lemma_chain_sound(c: Nfa, chars: Seq<char>, j: int, w: Seq<char>, m: nat)
    requires
        c.states@.len() == chars.len() + 1,
        forall|q: int| 0 <= q < chars.len() ==> #[trigger] chain_link(c, q, chars[q]),
        c.states@[chars.len() as int].transitions@.len() == 0,
        0 <= j <= chars.len(),
        runs(c, j, w, chars.len() as int, m),
    ensures
        w == chars.subrange(j, chars.len() as int),
    decreases m,
{
    let n = chars.len() as int;
    if j == n {
        lemma_runs_stuck(c, j, w, n, m);
        assert(w =~= chars.subrange(j, n));
    } else {
        assert(chain_link(c, j, chars[j]));
        assert(m > 0);
        let k = choose|k: int| #![trigger c.states@[j].transitions@[k]]
            0 <= k < c.states@[j].transitions@.len() && {
                let tr = c.states@[j].transitions@[k];
                ||| tr.character_class is None && runs(c, tr.target as int, w, n, (m - 1) as nat)
                ||| w.len() > 0 && reads(tr, w[0]) && runs(c, tr.target as int, w.drop_first(), n, (m - 1) as nat)
            };
        assert(k == 0);
        let tr = c.states@[j].transitions@[0];
        assert(w.len() > 0 && reads(tr, w[0]));
        assert(w[0] == chars[j]);
        lemma_chain_sound(c, chars, j + 1, w.drop_first(), (m - 1) as nat);
        assert(w =~= seq![w[0]] + w.drop_first());
        assert(w =~= chars.subrange(j, n));
    }
}

/// Two automata whose states have the same transitions, with the same start
/// and end, accept the same words.
pub proof fn lemma_accepts_same_transitions(b: Nfa, c: Nfa, w: Seq<char>)
    requires
        b.wf(),
        c.states@.len() == b.states@.len(),
        forall|i: int| 0 <= i < b.states@.len() ==> (#[trigger] c.states@[i]).transitions@ == b.states@[i].transitions@,
        c.start_state == b.start_state,
        c.end_state == b.end_state,
        accepts_word(b, w),
    ensures
        accepts_word(c, w),
{
    assert forall|i: int, k: int| 0 <= i < b.states@.len() && 0 <= k < b.states@[i].transitions@.len() implies {
        &&& k < c.states@[i + 0].transitions@.len()
        &&& trans_like(b.states@[i].transitions@[k], #[trigger] c.states@[i + 0].transitions@[k], 0)
    } by {
        assert(c.states@[i].transitions@ == b.states@[i].transitions@);
    }
    assert(embeds(b, c, 0));
    let n = choose|n: nat| runs(b, b.start_state as int, w, b.end_state as int, n);
    lemma_runs_embed(b, c, 0, b.start_state as int, w, b.end_state as int, n);
}

/// Whether state `t` of the automaton accepts with priority `k`.
pub open spec fn labelled(nfa: Nfa, t: int, k: int) -> bool {
    &&& 0 <= t < nfa.states@.len()
    &&& nfa.states@[t].accept_data matches Some(p) && p.priority == k
}

/// Whether the automaton reads `w` from its start state into a state that
/// accepts with priority `k`.
pub open spec fn accepts_word_as(nfa: Nfa, w: Seq<char>, k: int) -> bool {
    exists|n: nat, t: int| #[trigger] runs(nfa, nfa.start_state as int, w, t, n) && labelled(nfa, t, k)
}

/// In an automaton whose only accepting state is its end state, with
/// priority `k`, a word reaches a state of priority `j` exactly where `j` is
/// `k` and the automaton accepts the word.
pub proof fn lemma_single_label(a: Nfa, k: int, j: int, w: Seq<char>)
    requires
        a.wf(),
        labelled(a, a.end_state as int, k),
        forall|i: int| 0 <= i < a.states@.len() && i != a.end_state ==> (#[trigger] a.states@[i]).accept_data is None,
    ensures
        accepts_word_as(a, w, j) <==> (j == k && accepts_word(a, w)),
{
    if accepts_word_as(a, w, j) {
        let (n, t) = choose|n: nat, t: int| #[trigger] runs(a, a.start_state as int, w, t, n) && labelled(a, t, j);
        assert(t == a.end_state);
    }
    if j == k && accepts_word(a, w) {
        let n = choose|n: nat| runs(a, a.start_state as int, w, a.end_state as int, n);
        assert(runs(a, a.start_state as int, w, a.end_state as int, n) && labelled(a, a.end_state as int, j));
    }
}

/// A run of an alternation into a state that accepts with priority `x` is a
/// run of `a` for priorities other than `k`, and a word of `b` for `k`.
proof fn lemma_alternation_label_run(a: Nfa, b: Nfa, c: Nfa, k: int, j: int, w: Seq<char>)
    requires
        a.wf(),
        b.wf(),
        c.wf(),
        c.states@.len() <= usize::MAX,
        alternation_of(a, b, c),
        crate::nfa::end_free(a),
        crate::nfa::end_free(b),
        c.states@[(a.states@.len() + b.states@.len()) as int].accept_data is None,
        c.states@[(a.states@.len() + b.states@.len() + 1) as int].accept_data is None,
        forall|t: int| !#[trigger] labelled(a, t, k),
        labelled(b, b.end_state as int, k),
        forall|i: int| 0 <= i < b.states@.len() && i != b.end_state ==> (#[trigger] b.states@[i]).accept_data is None,
    ensures
        accepts_word_as(c, w, j) ==> (j != k && accepts_word_as(a, w, j)) || (j == k && accepts_word(b, w)),
{
    let l1 = a.states@.len() as int;
    let l2 = b.states@.len() as int;
    let s = l1 + l2;
    let e = l1 + l2 + 1;
    let ae = a.end_state as int;
    let be = b.end_state as int + l1;
    assert(c.states@[ae].transitions@ =~= seq![epsilon(e as usize)]);
    assert(c.states@[be].transitions@ =~= seq![epsilon(e as usize)]) by {
        assert(c.states@[l1 + b.end_state].transitions@
            == b.states@[b.end_state as int].transitions@.map_values(|tr: NfaTransition| shift_transition(tr, l1)) + seq![epsilon(e as usize)]);
    }
    // the accepting states of c
    assert forall|t: int, x: int| #[trigger] labelled(c, t, x) implies
        (0 <= t < l1 && labelled(a, t, x)) || (t == be && x == k) by {
        if t < l1 {
            if t != ae {
                assert(c.states@[t] == a.states@[t]);
            }
        } else if t < s {
            let i = t - l1;
            if i != b.end_state {
                assert(shifted_state(b.states@[i], c.states@[l1 + i], l1));
                assert(c.states@[l1 + i] == c.states@[t]);
            }
        }
    }
    // a run of c into an accepting state
    if accepts_word_as(c, w, j) {
        let (n, t) = choose|n: nat, t: int| #[trigger] runs(c, c.start_state as int, w, t, n) && labelled(c, t, j);
        assert(n > 0);
        let k0 = lemma_runs_first_epsilon(c, s, w, t, n);
        if k0 == 0 {
            lemma_region_kept(a, c);
            let rr = lemma_runs_exit(a, c, 0, a.start_state as int, w, t, (n - 1) as nat);
            match rr {
                None => {
                    assert(labelled(a, t, j));
                    assert(runs(a, a.start_state as int, w, t, (n - 1) as nat));
                    assert(j != k);
                },
                Some((u, v, n1, n2)) => {
                    if n2 > 0 {
                        let k2 = lemma_runs_first_epsilon(c, ae, v, t, n2);
                        lemma_runs_stuck(c, e, v, t, (n2 - 1) as nat);
                        assert(false);
                    }
                    assert(w =~= u);
                    assert(t == ae);
                    assert(labelled(a, ae, j));
                    assert(runs(a, a.start_state as int, w, ae, n1));
                    assert(j != k);
                },
            }
        } else {
            assert(c.states@[s].transitions@[k0].target == b.start_state + l1);
            assert forall|i: int| 0 <= i < b.states@.len() && i != b.end_state implies
                (#[trigger] c.states@[i + l1]).transitions@ == b.states@[i].transitions@.map_values(|tr: NfaTransition| shift_transition(tr, l1)) by {
                assert(c.states@[i + l1] == c.states@[l1 + i]);
            }
            assert(region_of(b, c, l1));
            let rr = lemma_runs_exit(b, c, l1, b.start_state as int, w, t, (n - 1) as nat);
            match rr {
                None => {
                    assert(t == be);
                    assert(j == k);
                    assert(runs(b, b.start_state as int, w, b.end_state as int, (n - 1) as nat));
                },
                Some((u, v, n1, n2)) => {
                    if n2 > 0 {
                        let k2 = lemma_runs_first_epsilon(c, be, v, t, n2);
                        lemma_runs_stuck(c, e, v, t, (n2 - 1) as nat);
                        assert(false);
                    }
                    assert(w =~= u);
                    assert(t == be);
                    assert(j == k);
                    assert(runs(b, b.start_state as int, w, b.end_state as int, n1));
                },
            }
        }
    }
}

/// The words an alternation `c` of `a` and `b` reads into accepting states:
/// those of `a` for the priorities other than `k`, and the words of `b`,
/// whose only accepting state is its end state, for `k`.
pub proof fn lemma_alternation_labels(a: Nfa, b: Nfa, c: Nfa, k: int, j: int, w: Seq<char>)
    requires
        a.wf(),
        b.wf(),
        c.wf(),
        c.states@.len() <= usize::MAX,
        alternation_of(a, b, c),
        crate::nfa::end_free(a),
        crate::nfa::end_free(b),
        c.states@[(a.states@.len() + b.states@.len()) as int].accept_data is None,
        c.states@[(a.states@.len() + b.states@.len() + 1) as int].accept_data is None,
        forall|t: int| !#[trigger] labelled(a, t, k),
        labelled(b, b.end_state as int, k),
        forall|i: int| 0 <= i < b.states@.len() && i != b.end_state ==> (#[trigger] b.states@[i]).accept_data is None,
    ensures
        j != k ==> (accepts_word_as(c, w, j) <==> accepts_word_as(a, w, j)),
        accepts_word_as(c, w, k) <==> accepts_word(b, w),
{
    let l1 = a.states@.len() as int;
    let l2 = b.states@.len() as int;
    let s = l1 + l2;
    let e = l1 + l2 + 1;
    let ae = a.end_state as int;
    let be = b.end_state as int + l1;
    assert(c.states@[ae].transitions@ =~= seq![epsilon(e as usize)]);
    assert(c.states@[be].transitions@ =~= seq![epsilon(e as usize)]) by {
        assert(c.states@[l1 + b.end_state].transitions@
            == b.states@[b.end_state as int].transitions@.map_values(|tr: NfaTransition| shift_transition(tr, l1)) + seq![epsilon(e as usize)]);
    }
    // the accepting states of c
    assert forall|t: int, x: int| #[trigger] labelled(c, t, x) implies
        (0 <= t < l1 && labelled(a, t, x)) || (t == be && x == k) by {
        if t < l1 {
            if t != ae {
                assert(c.states@[t] == a.states@[t]);
            }
        } else if t < s {
            let i = t - l1;
            if i != b.end_state {
                assert(shifted_state(b.states@[i], c.states@[l1 + i], l1));
                assert(c.states@[l1 + i] == c.states@[t]);
            }
        }
    }
    lemma_alternation_label_run(a, b, c, k, j, w);
    lemma_alternation_label_run(a, b, c, k, k, w);
    // runs of a and b are runs of c
    assert(Seq::<char>::empty() + w =~= w);
    if j != k && accepts_word_as(a, w, j) {
        let (n, t) = choose|n: nat, t: int| #[trigger] runs(a, a.start_state as int, w, t, n) && labelled(a, t, j);
        assert forall|i: int| 0 <= i < a.states@.len() implies prefix_shifted(#[trigger] a.states@[i], c.states@[i + 0], 0) by {
            if i == a.end_state {
                lemma_prefix_extended(a.states@[i], c.states@[i], seq![epsilon(e as usize)]);
            } else {
                lemma_prefix_equal(a.states@[i], c.states@[i]);
            }
        }
        lemma_embeds(a, c, 0);
        lemma_runs_embed(a, c, 0, a.start_state as int, w, t, n);
        lemma_runs_epsilon(c, s, 0);
        lemma_runs_compose(c, s, Seq::empty(), a.start_state as int, 1, w, t, n);
        if t != ae {
            assert(c.states@[t] == a.states@[t]);
        }
        assert(runs(c, c.start_state as int, w, t, 1 + n) && labelled(c, t, j));
    }
    if accepts_word(b, w) {
        let n = choose|n: nat| runs(b, b.start_state as int, w, b.end_state as int, n);
        assert forall|i: int| 0 <= i < b.states@.len() implies prefix_shifted(#[trigger] b.states@[i], c.states@[i + l1], l1) by {
            assert(c.states@[i + l1] == c.states@[l1 + i]);
            lemma_prefix_moved(b.states@[i], c.states@[i + l1], l1, seq![epsilon(e as usize)]);
        }
        lemma_embeds(b, c, l1);
        lemma_runs_embed(b, c, l1, b.start_state as int, w, b.end_state as int, n);
        lemma_runs_epsilon(c, s, 1);
        lemma_runs_compose(c, s, Seq::empty(), b.start_state + l1, 1, w, be, n);
        assert(c.states@[l1 + b.end_state] == c.states@[be]);
        assert(runs(c, c.start_state as int, w, be, 1 + n) && labelled(c, be, k));
    }
}

} // verus!
