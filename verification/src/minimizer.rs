//! Minimization of the generator's DFAs by partition refinement: states are
//! grouped by what they accept, and groups are split until the states of each
//! group move to the same groups on the same character classes.
use vstd::prelude::*;
use crate::dfa::{Dfa, DfaState, DfaTransition};
use crate::nfa::strictly_sorted;
use crate::pattern::{lemma_patterns_same_equiv, pattern_same, patterns_same, same_patterns, Pattern};

verus! {

/// The transitions of a state mapped to the partition groups of their
/// targets: pairs of character class and group.
pub struct TransitionsToPartitionGroups(pub Vec<(usize, usize)>);

impl TransitionsToPartitionGroups {
    /// An empty mapping.
    pub fn new() -> (r: TransitionsToPartitionGroups)
        ensures
            r.0@.len() == 0,
    {
        TransitionsToPartitionGroups(Vec::new())
    }

    /// An empty mapping with room for `capacity` pairs.
    pub fn with_capacity(capacity: usize) -> (r: TransitionsToPartitionGroups)
        ensures
            r.0@.len() == 0,
    {
        TransitionsToPartitionGroups(Vec::with_capacity(capacity))
    }

    /// Adds the group of the target of a transition on a character class.
    pub fn insert(&mut self, char_class: usize, partition_group: usize)
        ensures
            final(self).0@ == old(self).0@.push((char_class, partition_group)),
    {
        self.0.push((char_class, partition_group));
    }
}

/// The minimizer of DFAs.
pub struct Minimizer;

/// A DFA whose states exist and whose transitions lead to states.
pub open spec fn dfa_ok(dfa: Dfa) -> bool {
    &&& dfa.states@.len() > 0
    &&& forall|s: int, k: int| 0 <= s < dfa.states@.len() && 0 <= k < dfa.states@[s].transitions@.len()
        ==> (#[trigger] dfa.states@[s].transitions@[k]).target < dfa.states@.len()
}

/// The priorities and token types of the patterns a state accepts, in order.
pub open spec fn accept_keys(st: DfaState) -> Seq<(usize, usize)> {
    st.accepts@.map_values(|p: Pattern| (p.priority, p.terminal_type))
}

/// Whether some group of the partition holds `s`.
pub open spec fn in_partition(p: Seq<Seq<usize>>, s: usize) -> bool {
    exists|q: int| 0 <= q < p.len() && (#[trigger] p[q]).contains(s)
}

/// A partition of the states `0..n` into non-empty groups, each in strictly
/// increasing order.
pub open spec fn partition_ok(p: Seq<Seq<usize>>, n: int) -> bool {
    &&& forall|q: int| 0 <= q < p.len() ==> (#[trigger] p[q]).len() > 0 && strictly_sorted(p[q])
    &&& forall|q: int, k: int| 0 <= q < p.len() && 0 <= k < p[q].len() ==> #[trigger] p[q][k] < n
    &&& forall|s: usize| s < n ==> #[trigger] in_partition(p, s)
    &&& forall|q1: int, q2: int, s: usize| 0 <= q1 < p.len() && 0 <= q2 < p.len() && q1 != q2
        && #[trigger] p[q1].contains(s) ==> !#[trigger] p[q2].contains(s)
}

/// The group of the partition that holds `s`.
pub open spec fn group_index(p: Seq<Seq<usize>>, s: usize) -> int {
    choose|q: int| 0 <= q < p.len() && (#[trigger] p[q]).contains(s)
}

/// The transitions of the states of a DFA as (character class, target) pairs.
pub open spec fn transition_map(dfa: Dfa) -> Seq<Seq<(usize, usize)>> {
    dfa.states@.map_values(|st: DfaState| st.transitions@.map_values(|t: DfaTransition| (t.elementary_interval_index, t.target)))
}

/// The transitions of state `s` mapped to the groups of their targets.
pub open spec fn signature(tm: Seq<Seq<(usize, usize)>>, p: Seq<Seq<usize>>, s: int) -> Seq<(usize, usize)> {
    tm[s].map_values(|t: (usize, usize)| (t.0, group_index(p, t.1) as usize))
}

/// The targets of the transitions are states.
pub open spec fn map_ok(tm: Seq<Seq<(usize, usize)>>) -> bool {
    forall|s: int, k: int| 0 <= s < tm.len() && 0 <= k < tm[s].len() ==> (#[trigger] tm[s][k]).1 < tm.len()
}

/// The states of each group accept the same patterns.
pub open spec fn accepts_consistent(dfa: Dfa, p: Seq<Seq<usize>>) -> bool {
    forall|q: int, a: int, b: int| 0 <= q < p.len() && 0 <= a < p[q].len() && 0 <= b < p[q].len()
        ==> patterns_same(dfa.states@[(#[trigger] p[q][a]) as int].accepts@, dfa.states@[(#[trigger] p[q][b]) as int].accepts@)
}

/// The states of each group have the same signature: the partition cannot be
/// refined further.
pub open spec fn stable(tm: Seq<Seq<(usize, usize)>>, p: Seq<Seq<usize>>) -> bool {
    forall|q: int, a: int, b: int| 0 <= q < p.len() && 0 <= a < p[q].len() && 0 <= b < p[q].len()
        ==> signature(tm, p, (#[trigger] p[q][a]) as int) == signature(tm, p, (#[trigger] p[q][b]) as int)
}

/// The views of a vector of vectors.
pub open spec fn views_of<T>(v: Seq<Vec<T>>) -> Seq<Seq<T>> {
    v.map_values(|x: Vec<T>| x@)
}

/// Whether two pair vectors are equal.
fn same_pairs(a: &Vec<(usize, usize)>, b: &Vec<(usize, usize)>) -> (r: bool)
    ensures
        r == (a@ == b@),
{
    if a.len() != b.len() {
        return false;
    }
    let mut i: usize = 0;
    while i < a.len()
        invariant
            i <= a@.len(),
            a@.len() == b@.len(),
            forall|k: int| 0 <= k < i ==> a@[k] == b@[k],
        decreases a.len() - i,
    {
        if a[i].0 != b[i].0 || a[i].1 != b[i].1 {
            assert(a@[i as int] != b@[i as int]);
            return false;
        }
        i = i + 1;
    }
    assert(a@ =~= b@);
    true
}

impl Minimizer {
    /// The transitions of the DFA as (character class, target) pairs per state.
    pub fn calculate_transitions(dfa: &Dfa) -> (r: Vec<Vec<(usize, usize)>>)
        ensures
            views_of(r@) == transition_map(*dfa),
    {
        let mut r: Vec<Vec<(usize, usize)>> = Vec::new();
        let mut s: usize = 0;
        while s < dfa.states.len()
            invariant
                s <= dfa.states@.len(),
                r@.len() == s,
                forall|u: int| 0 <= u < s ==> (#[trigger] r@[u])@ == transition_map(*dfa)[u],
            decreases dfa.states.len() - s,
        {
            let ts = &dfa.states[s].transitions;
            let mut row: Vec<(usize, usize)> = Vec::new();
            let mut k: usize = 0;
            while k < ts.len()
                invariant
                    k <= ts@.len(),
                    row@ == ts@.take(k as int).map_values(|t: DfaTransition| (t.elementary_interval_index, t.target)),
                decreases ts.len() - k,
            {
                row.push((ts[k].elementary_interval_index, ts[k].target));
                proof {
                    assert(ts@.take(k + 1) == ts@.take(k as int).push(ts@[k as int]));
                }
                k = k + 1;
                assert(row@ =~= ts@.take(k as int).map_values(|t: DfaTransition| (t.elementary_interval_index, t.target)));
            }
            assert(ts@.take(ts@.len() as int) =~= ts@);
            r.push(row);
            s = s + 1;
        }
        assert(views_of(r@) =~= transition_map(*dfa));
        r
    }

    /// The index of the group that holds `state`, if any.
    pub fn find_group(state: usize, partition: &Vec<Vec<usize>>) -> (r: Option<usize>)
        ensures
            r matches Some(q) ==> q < partition@.len() && partition@[q as int]@.contains(state)
                && forall|u: int| 0 <= u < q ==> !(#[trigger] partition@[u])@.contains(state),
            r is None ==> forall|u: int| 0 <= u < partition@.len() ==> !(#[trigger] partition@[u])@.contains(state),
    {
        let mut q: usize = 0;
        while q < partition.len()
            invariant
                q <= partition@.len(),
                forall|u: int| 0 <= u < q ==> !(#[trigger] partition@[u])@.contains(state),
            decreases partition.len() - q,
        {
            let g = &partition[q];
            let mut k: usize = 0;
            while k < g.len()
                invariant
                    k <= g@.len(),
                    q < partition@.len(),
                    g@ == partition@[q as int]@,
                    forall|u: int| 0 <= u < k ==> g@[u] != state,
                    forall|u: int| 0 <= u < q ==> !(#[trigger] partition@[u])@.contains(state),
                decreases g.len() - k,
            {
                if g[k] == state {
                    assert(g@[k as int] == state);
                    assert(partition@[q as int]@.contains(state));
                    return Some(q);
                }
                k = k + 1;
            }
            q = q + 1;
        }
        None
    }
}


/// The group that holds a state is the one `group_index` names.
pub proof fn lemma_group_index(p: Seq<Seq<usize>>, n: int, q: int, s: usize)
    requires
        partition_ok(p, n),
        0 <= q < p.len(),
        p[q].contains(s),
    ensures
        group_index(p, s) == q,
{
    let g = group_index(p, s);
    assert(0 <= g < p.len() && p[g].contains(s));
    if g != q {
        assert(!p[q].contains(s));
    }
}

impl Minimizer {
    /// The signature of a state: its transitions mapped to the groups of their
    /// targets.
    pub fn build_transitions_to_partition_group(state: usize, partition: &Vec<Vec<usize>>,
        transitions: &Vec<Vec<(usize, usize)>>) -> (r: TransitionsToPartitionGroups)
        requires
            partition_ok(views_of(partition@), transitions@.len() as int),
            map_ok(views_of(transitions@)),
            state < transitions@.len(),
        ensures
            r.0@ == signature(views_of(transitions@), views_of(partition@), state as int),
    {
        let ghost p = views_of(partition@);
        let ghost tm = views_of(transitions@);
        let ts = &transitions[state];
        let mut r = TransitionsToPartitionGroups::with_capacity(ts.len());
        let mut k: usize = 0;
        while k < ts.len()
            invariant
                k <= ts@.len(),
                ts@ == tm[state as int],
                p == views_of(partition@),
                tm == views_of(transitions@),
                state < tm.len(),
                partition_ok(p, tm.len() as int),
                map_ok(tm),
                r.0@ == tm[state as int].take(k as int).map_values(|t: (usize, usize)| (t.0, group_index(p, t.1) as usize)),
            decreases ts.len() - k,
        {
            let (cc, target) = ts[k];
            assert(tm[state as int][k as int] == (cc, target));
            assert(target < tm.len());
            assert(in_partition(p, target));
            let q = match Self::find_group(target, partition) {
                Some(q) => q,
                None => {
                    proof {
                        let w = choose|w: int| 0 <= w < p.len() && (#[trigger] p[w]).contains(target);
                        assert(partition@[w]@ == p[w]);
                    }
                    assert(false);
                    0
                },
            };
            proof {
                assert(partition@[q as int]@ == p[q as int]);
                lemma_group_index(p, tm.len() as int, q as int, target);
            }
            r.insert(cc, q);
            proof {
                assert(tm[state as int].take(k + 1) == tm[state as int].take(k as int).push((cc, target)));
            }
            k = k + 1;
            assert(r.0@ =~= tm[state as int].take(k as int).map_values(|t: (usize, usize)| (t.0, group_index(p, t.1) as usize)));
        }
        assert(tm[state as int].take(ts@.len() as int) =~= tm[state as int]);
        r
    }
}


/// `parts` split the strictly increasing `group` into non-empty, strictly
/// increasing, pairwise disjoint parts that together hold its states.
pub open spec fn splits(group: Seq<usize>, parts: Seq<Seq<usize>>) -> bool {
    &&& forall|j: int| 0 <= j < parts.len() ==> (#[trigger] parts[j]).len() > 0 && strictly_sorted(parts[j])
    &&& forall|j: int, x: usize| 0 <= j < parts.len() && #[trigger] parts[j].contains(x) ==> group.contains(x)
    &&& forall|x: usize| group.contains(x) ==> exists|j: int| 0 <= j < parts.len() && #[trigger] parts[j].contains(x)
    &&& forall|j1: int, j2: int, x: usize| 0 <= j1 < parts.len() && 0 <= j2 < parts.len() && j1 != j2
        && #[trigger] parts[j1].contains(x) ==> !#[trigger] parts[j2].contains(x)
}

/// The states of each part have the given signature.
pub open spec fn parts_uniform(tm: Seq<Seq<(usize, usize)>>, p: Seq<Seq<usize>>, parts: Seq<Seq<usize>>, sigs: Seq<Seq<(usize, usize)>>) -> bool {
    forall|j: int, k: int| 0 <= j < parts.len() && 0 <= k < parts[j].len()
        ==> signature(tm, p, (#[trigger] parts[j][k]) as int) == sigs[j]
}

impl Minimizer {
    /// Splits a group into parts of states with the same signature, in the
    /// order in which the signatures first occur.
    pub fn split_group(group_index: usize, group: &Vec<usize>, partition: &Vec<Vec<usize>>,
        transitions: &Vec<Vec<(usize, usize)>>) -> (r: Vec<Vec<usize>>)
        requires
            partition_ok(views_of(partition@), transitions@.len() as int),
            map_ok(views_of(transitions@)),
            group@.len() > 0,
            strictly_sorted(group@),
            forall|k: int| 0 <= k < group@.len() ==> #[trigger] group@[k] < transitions@.len(),
        ensures
            splits(group@, views_of(r@)),
            r@.len() >= 1,
            forall|j: int, a: int, b: int| 0 <= j < r@.len() && 0 <= a < r@[j]@.len() && 0 <= b < r@[j]@.len()
                ==> signature(views_of(transitions@), views_of(partition@), (#[trigger] r@[j]@[a]) as int)
                == signature(views_of(transitions@), views_of(partition@), (#[trigger] r@[j]@[b]) as int),
            forall|j1: int, j2: int, a: int, b: int| 0 <= j1 < r@.len() && 0 <= j2 < r@.len() && j1 != j2
                && 0 <= a < r@[j1]@.len() && 0 <= b < r@[j2]@.len()
                ==> signature(views_of(transitions@), views_of(partition@), (#[trigger] r@[j1]@[a]) as int)
                != signature(views_of(transitions@), views_of(partition@), (#[trigger] r@[j2]@[b]) as int),
    {
        let ghost p = views_of(partition@);
        let ghost tm = views_of(transitions@);
        let mut parts: Vec<Vec<usize>> = Vec::new();
        let mut sigs: Vec<Vec<(usize, usize)>> = Vec::new();
        let mut k: usize = 0;
        while k < group.len()
            invariant
                k <= group@.len(),
                p == views_of(partition@),
                tm == views_of(transitions@),
                partition_ok(p, tm.len() as int),
                map_ok(tm),
                strictly_sorted(group@),
                forall|u: int| 0 <= u < group@.len() ==> #[trigger] group@[u] < tm.len(),
                parts@.len() == sigs@.len(),
                splits(group@.take(k as int), views_of(parts@)),
                parts_uniform(tm, p, views_of(parts@), views_of(sigs@)),
                forall|u1: int, u2: int| 0 <= u1 < sigs@.len() && 0 <= u2 < sigs@.len() && u1 != u2
                    ==> #[trigger] views_of(sigs@)[u1] != #[trigger] views_of(sigs@)[u2],
                k > 0 ==> parts@.len() >= 1,
            decreases group.len() - k,
        {
            let s = group[k];
            let sig = Self::build_transitions_to_partition_group(s, partition, transitions).0;
            let ghost pv0 = views_of(parts@);
            let ghost sv0 = views_of(sigs@);
            let ghost g0 = group@.take(k as int);
            let ghost g1 = group@.take(k + 1);
            proof {
                assert(g1 == g0.push(s));
                assert forall|x: usize| g0.contains(x) implies x < s by {
                    let w = choose|w: int| 0 <= w < g0.len() && g0[w] == x;
                    assert(group@[w] == x);
                }
                assert(!g0.contains(s));
            }
            let mut j: usize = 0;
            let mut found = false;
            while j < sigs.len()
                invariant_except_break
                    !found,
                invariant
                    j <= sigs@.len(),
                    forall|u: int| 0 <= u < j ==> (#[trigger] sigs@[u])@ != sig@,
                ensures
                    found ==> j < sigs@.len() && sigs@[j as int]@ == sig@,
                    !found ==> j == sigs@.len(),
                decreases sigs.len() - j,
            {
                if same_pairs(&sigs[j], &sig) {
                    found = true;
                    break;
                }
                j = j + 1;
            }
            if found {
                parts[j].push(s);
                proof {
                    let pv = views_of(parts@);
                    assert(pv[j as int] == pv0[j as int].push(s));
                    assert forall|u: int| 0 <= u < pv.len() && u != j implies #[trigger] pv[u] == pv0[u] by {}
                    assert forall|u: int| 0 <= u < pv.len() implies (#[trigger] pv[u]).len() > 0 && strictly_sorted(pv[u]) by {
                        if u == j {
                            assert forall|a: int, b: int| 0 <= a < b < pv[u].len() implies pv[u][a] < pv[u][b] by {
                                if b == pv[u].len() - 1 {
                                    assert(pv0[u].contains(pv[u][a]));
                                    assert(g0.contains(pv[u][a]));
                                }
                            }
                        }
                    }
                    assert forall|u: int, x: usize| 0 <= u < pv.len() && #[trigger] pv[u].contains(x) implies g1.contains(x) by {
                        if u == j && x == s {
                            assert(g1[k as int] == s);
                        } else {
                            if u == j {
                                let w = choose|w: int| 0 <= w < pv[u].len() && pv[u][w] == x;
                                assert(w < pv0[u].len());
                                assert(pv0[u][w] == x);
                            }
                            assert(pv0[u].contains(x));
                            assert(g0.contains(x));
                            let w = choose|w: int| 0 <= w < g0.len() && g0[w] == x;
                            assert(g1[w] == x);
                        }
                    }
                    assert forall|x: usize| g1.contains(x) implies exists|u: int| 0 <= u < pv.len() && #[trigger] pv[u].contains(x) by {
                        let w = choose|w: int| 0 <= w < g1.len() && g1[w] == x;
                        if w < k {
                            assert(g0[w] == x);
                            assert(g0.contains(x));
                            assert(exists|u: int| 0 <= u < pv0.len() && #[trigger] pv0[u].contains(x));
                            let u = choose|u: int| 0 <= u < pv0.len() && #[trigger] pv0[u].contains(x);
                            let v = choose|v: int| 0 <= v < pv0[u].len() && pv0[u][v] == x;
                            assert(pv[u][v] == x);
                            assert(pv[u].contains(x));
                        } else {
                            assert(pv[j as int][pv[j as int].len() - 1] == x);
                            assert(pv[j as int].contains(x));
                        }
                    }
                    assert forall|j1: int, j2: int, x: usize| 0 <= j1 < pv.len() && 0 <= j2 < pv.len() && j1 != j2
                        && #[trigger] pv[j1].contains(x) implies !#[trigger] pv[j2].contains(x) by {
                        if pv[j2].contains(x) {
                            if x == s {
                                if j1 != j {
                                    assert(pv0[j1].contains(s));
                                    assert(g0.contains(s));
                                } else {
                                    assert(pv0[j2].contains(s));
                                    assert(g0.contains(s));
                                }
                            } else {
                                if j1 == j {
                                    let w = choose|w: int| 0 <= w < pv[j1].len() && pv[j1][w] == x;
                                    assert(pv0[j1][w] == x);
                                    assert(pv0[j1].contains(x));
                                }
                                if j2 == j {
                                    let w = choose|w: int| 0 <= w < pv[j2].len() && pv[j2][w] == x;
                                    assert(pv0[j2][w] == x);
                                    assert(pv0[j2].contains(x));
                                }
                                assert(pv0[j1].contains(x) && pv0[j2].contains(x));
                            }
                        }
                    }
                    assert(splits(g1, pv));
                    assert forall|u: int, v: int| 0 <= u < pv.len() && 0 <= v < pv[u].len()
                        implies signature(tm, p, (#[trigger] pv[u][v]) as int) == views_of(sigs@)[u] by {
                        if u == j && v == pv[u].len() - 1 {
                        } else if u == j {
                            assert(pv[u][v] == pv0[u][v]);
                        }
                    }
                }
            } else {
                let mut part: Vec<usize> = Vec::new();
                part.push(s);
                parts.push(part);
                sigs.push(sig);
                proof {
                    let pv = views_of(parts@);
                    let n0 = pv0.len() as int;
                    assert(pv[n0] == seq![s]);
                    assert forall|u: int| 0 <= u < n0 implies #[trigger] pv[u] == pv0[u] by {}
                    assert forall|u: int| 0 <= u < pv.len() implies (#[trigger] pv[u]).len() > 0 && strictly_sorted(pv[u]) by {}
                    assert forall|u: int, x: usize| 0 <= u < pv.len() && #[trigger] pv[u].contains(x) implies g1.contains(x) by {
                        if u == n0 {
                            assert(seq![s].contains(x) ==> x == s);
                            assert(g1[k as int] == s);
                        } else {
                            assert(pv0[u].contains(x));
                            assert(g0.contains(x));
                            let w = choose|w: int| 0 <= w < g0.len() && g0[w] == x;
                            assert(g1[w] == x);
                        }
                    }
                    assert forall|x: usize| g1.contains(x) implies exists|u: int| 0 <= u < pv.len() && #[trigger] pv[u].contains(x) by {
                        let w = choose|w: int| 0 <= w < g1.len() && g1[w] == x;
                        if w < k {
                            assert(g0[w] == x);
                            assert(g0.contains(x));
                            assert(exists|u: int| 0 <= u < pv0.len() && #[trigger] pv0[u].contains(x));
                            let u = choose|u: int| 0 <= u < pv0.len() && #[trigger] pv0[u].contains(x);
                            assert(pv[u] == pv0[u]);
                            assert(pv[u].contains(x));
                        } else {
                            assert(pv[n0][0] == x);
                            assert(pv[n0].contains(x));
                        }
                    }
                    assert forall|j1: int, j2: int, x: usize| 0 <= j1 < pv.len() && 0 <= j2 < pv.len() && j1 != j2
                        && #[trigger] pv[j1].contains(x) implies !#[trigger] pv[j2].contains(x) by {
                        if pv[j2].contains(x) {
                            if j1 == n0 {
                                assert(x == s) by {
                                    let w = choose|w: int| 0 <= w < pv[j1].len() && pv[j1][w] == x;
                                }
                                assert(pv0[j2].contains(s));
                                assert(g0.contains(s));
                            } else if j2 == n0 {
                                assert(x == s) by {
                                    let w = choose|w: int| 0 <= w < pv[j2].len() && pv[j2][w] == x;
                                }
                                assert(pv0[j1].contains(s));
                                assert(g0.contains(s));
                            } else {
                                assert(pv0[j1].contains(x) && pv0[j2].contains(x));
                            }
                        }
                    }
                    assert(splits(g1, pv));
                    assert forall|u: int, v: int| 0 <= u < pv.len() && 0 <= v < pv[u].len()
                        implies signature(tm, p, (#[trigger] pv[u][v]) as int) == views_of(sigs@)[u] by {
                        if u < n0 {
                            assert(pv[u] == pv0[u]);
                            assert(views_of(sigs@)[u] == sv0[u]);
                        }
                    }
                    assert forall|u1: int, u2: int| 0 <= u1 < sigs@.len() && 0 <= u2 < sigs@.len() && u1 != u2
                        implies #[trigger] views_of(sigs@)[u1] != #[trigger] views_of(sigs@)[u2] by {
                        if u1 < n0 && u2 < n0 {
                            assert(views_of(sigs@)[u1] == sv0[u1] && views_of(sigs@)[u2] == sv0[u2]);
                        } else if u1 == n0 {
                            assert(views_of(sigs@)[u2] == sv0[u2] && sv0[u2] == sigs@[u2]@);
                        } else {
                            assert(views_of(sigs@)[u1] == sv0[u1] && sv0[u1] == sigs@[u1]@);
                        }
                    }
                }
            }
            k = k + 1;
        }
        proof {
            assert(group@.take(group@.len() as int) =~= group@);
            let pv = views_of(parts@);
            assert forall|j: int, a: int, b: int| 0 <= j < parts@.len() && 0 <= a < parts@[j]@.len() && 0 <= b < parts@[j]@.len()
                implies signature(tm, p, (#[trigger] parts@[j]@[a]) as int) == signature(tm, p, (#[trigger] parts@[j]@[b]) as int) by {
                assert(pv[j] == parts@[j]@);
                assert(signature(tm, p, pv[j][a] as int) == views_of(sigs@)[j]);
                assert(signature(tm, p, pv[j][b] as int) == views_of(sigs@)[j]);
            }
            assert forall|j1: int, j2: int, a: int, b: int| 0 <= j1 < parts@.len() && 0 <= j2 < parts@.len() && j1 != j2
                && 0 <= a < parts@[j1]@.len() && 0 <= b < parts@[j2]@.len()
                implies signature(tm, p, (#[trigger] parts@[j1]@[a]) as int) != signature(tm, p, (#[trigger] parts@[j2]@[b]) as int) by {
                assert(pv[j1] == parts@[j1]@ && pv[j2] == parts@[j2]@);
                assert(signature(tm, p, pv[j1][a] as int) == views_of(sigs@)[j1]);
                assert(signature(tm, p, pv[j2][b] as int) == views_of(sigs@)[j2]);
                assert(views_of(sigs@)[j1] != views_of(sigs@)[j2]);
            }
        }
        parts
    }
}


/// The states of the group have the same signature.
pub open spec fn uniform(tm: Seq<Seq<(usize, usize)>>, p: Seq<Seq<usize>>, group: Seq<usize>) -> bool {
    forall|a: int, b: int| 0 <= a < group.len() && 0 <= b < group.len()
        ==> signature(tm, p, (#[trigger] group[a]) as int) == signature(tm, p, (#[trigger] group[b]) as int)
}

/// Every group of `r` lies within a group of `p`.
pub open spec fn refines(r: Seq<Seq<usize>>, p: Seq<Seq<usize>>) -> bool {
    forall|j: int| 0 <= j < r.len() ==> #[trigger] within_some(r[j], p)
}

/// Every state of `a` lies in one group of `p`.
pub open spec fn within_some(a: Seq<usize>, p: Seq<Seq<usize>>) -> bool {
    exists|q: int| 0 <= q < p.len() && #[trigger] within(a, p[q])
}

/// Every state of `a` is a state of `b`.
pub open spec fn within(a: Seq<usize>, b: Seq<usize>) -> bool {
    forall|x: usize| a.contains(x) ==> b.contains(x)
}

impl Minimizer {
    /// Splits every group of the partition into parts of states with the same
    /// signature; the parts of each group follow in the order of the groups.
    pub fn calculate_new_partition(partition: &Vec<Vec<usize>>, transitions: &Vec<Vec<(usize, usize)>>) -> (r: Vec<Vec<usize>>)
        requires
            partition_ok(views_of(partition@), transitions@.len() as int),
            map_ok(views_of(transitions@)),
        ensures
            partition_ok(views_of(r@), transitions@.len() as int),
            refines(views_of(r@), views_of(partition@)),
            r@.len() >= partition@.len(),
            r@.len() == partition@.len() ==> stable(views_of(transitions@), views_of(partition@)),
    {
        let ghost p = views_of(partition@);
        let ghost tm = views_of(transitions@);
        let ghost n = tm.len() as int;
        let mut r: Vec<Vec<usize>> = Vec::new();
        let ghost mut origin: Seq<int> = Seq::empty();
        let mut q: usize = 0;
        while q < partition.len()
            invariant
                q <= p.len(),
                p == views_of(partition@),
                tm == views_of(transitions@),
                n == tm.len(),
                partition_ok(p, n),
                map_ok(tm),
                origin.len() == r@.len(),
                r@.len() >= q,
                r@.len() == q ==> forall|u: int| 0 <= u < q ==> uniform(tm, p, #[trigger] p[u]),
                forall|j: int| 0 <= j < r@.len() ==> 0 <= #[trigger] origin[j] < q && within(views_of(r@)[j], p[origin[j]]),
                forall|j: int| 0 <= j < r@.len() ==> (#[trigger] views_of(r@)[j]).len() > 0 && strictly_sorted(views_of(r@)[j]),
                forall|u: int, x: usize| 0 <= u < q && #[trigger] p[u].contains(x)
                    ==> exists|j: int| 0 <= j < r@.len() && #[trigger] views_of(r@)[j].contains(x),
                forall|j1: int, j2: int, x: usize| 0 <= j1 < r@.len() && 0 <= j2 < r@.len() && j1 != j2
                    && #[trigger] views_of(r@)[j1].contains(x) ==> !#[trigger] views_of(r@)[j2].contains(x),
            decreases partition.len() - q,
        {
            proof {
                assert(p[q as int] == partition@[q as int]@);
                assert forall|k: int| 0 <= k < partition@[q as int]@.len() implies #[trigger] partition@[q as int]@[k] < transitions@.len() by {}
            }
            let mut parts = Self::split_group(q, &partition[q], partition, transitions);
            let ghost r0 = views_of(r@);
            let ghost pv = views_of(parts@);
            let ghost l0 = r@.len() as int;
            let ghost origin0 = origin;
            r.append(&mut parts);
            proof {
                let rv = views_of(r@);
                origin = origin0 + Seq::new(pv.len(), |i: int| q as int);
                assert forall|j: int| 0 <= j < l0 implies #[trigger] rv[j] == r0[j] by {}
                assert forall|j: int| 0 <= j < pv.len() implies #[trigger] rv[l0 + j] == pv[j] by {}
                assert forall|j: int| 0 <= j < r@.len() implies 0 <= #[trigger] origin[j] < q + 1 && within(views_of(r@)[j], p[origin[j]]) by {
                    if j < l0 {
                        assert(origin[j] == origin0[j]);
                        assert(rv[j] == r0[j]);
                    } else {
                        assert(rv[j] == pv[j - l0]);
                        assert forall|x: usize| rv[j].contains(x) implies p[q as int].contains(x) by {
                            assert(pv[j - l0].contains(x));
                        }
                    }
                }
                assert forall|j: int| 0 <= j < r@.len() implies (#[trigger] views_of(r@)[j]).len() > 0 && strictly_sorted(views_of(r@)[j]) by {
                    if j >= l0 {
                        assert(rv[j] == pv[j - l0]);
                    } else {
                        assert(rv[j] == r0[j]);
                    }
                }
                assert forall|u: int, x: usize| 0 <= u < q + 1 && #[trigger] p[u].contains(x)
                    implies exists|j: int| 0 <= j < r@.len() && #[trigger] views_of(r@)[j].contains(x) by {
                    if u < q {
                        let j = choose|j: int| 0 <= j < l0 && #[trigger] r0[j].contains(x);
                        assert(rv[j] == r0[j]);
                        assert(rv[j].contains(x));
                    } else {
                        assert(p[q as int] == partition@[q as int]@);
                        let j = choose|j: int| 0 <= j < pv.len() && #[trigger] pv[j].contains(x);
                        assert(rv[l0 + j] == pv[j]);
                        assert(rv[l0 + j].contains(x));
                    }
                }
                assert forall|j1: int, j2: int, x: usize| 0 <= j1 < r@.len() && 0 <= j2 < r@.len() && j1 != j2
                    && #[trigger] views_of(r@)[j1].contains(x) implies !#[trigger] views_of(r@)[j2].contains(x) by {
                    if rv[j2].contains(x) {
                        if j1 < l0 && j2 < l0 {
                            assert(rv[j1] == r0[j1] && rv[j2] == r0[j2]);
                        } else if j1 >= l0 && j2 >= l0 {
                            assert(rv[j1] == pv[j1 - l0] && rv[j2] == pv[j2 - l0]);
                        } else if j1 < l0 {
                            assert(rv[j1] == r0[j1]);
                            assert(within(r0[j1], p[origin0[j1]]));
                            assert(p[origin0[j1]].contains(x));
                            assert(rv[j2] == pv[j2 - l0]);
                            assert(p[q as int].contains(x));
                        } else {
                            assert(rv[j2] == r0[j2]);
                            assert(within(r0[j2], p[origin0[j2]]));
                            assert(p[origin0[j2]].contains(x));
                            assert(rv[j1] == pv[j1 - l0]);
                            assert(p[q as int].contains(x));
                        }
                    }
                }
                if r@.len() == q + 1 {
                    assert(l0 == q);
                    assert(pv.len() == 1);
                    assert(p[q as int] == partition@[q as int]@);
                    assert forall|a: int, b: int| 0 <= a < p[q as int].len() && 0 <= b < p[q as int].len()
                        implies signature(tm, p, (#[trigger] p[q as int][a]) as int) == signature(tm, p, (#[trigger] p[q as int][b]) as int) by {
                        let xa = p[q as int][a];
                        let xb = p[q as int][b];
                        assert(p[q as int].contains(xa));
                        assert(p[q as int].contains(xb));
                        let ja = choose|j: int| 0 <= j < pv.len() && #[trigger] pv[j].contains(xa);
                        let jb = choose|j: int| 0 <= j < pv.len() && #[trigger] pv[j].contains(xb);
                        let ia = choose|i: int| 0 <= i < pv[0].len() && pv[0][i] == xa;
                        let ib = choose|i: int| 0 <= i < pv[0].len() && pv[0][i] == xb;
                        assert(pv[0] == views_of(r@)[l0]);
                        assert(views_of(r@)[l0] == r@[l0]@);
                    }
                }
            }
            q = q + 1;
        }
        proof {
            let rv = views_of(r@);
            assert forall|j: int| 0 <= j < rv.len() implies #[trigger] within_some(rv[j], p) by {
                assert(within(rv[j], p[origin[j]]));
            }
            assert forall|s: usize| s < n implies #[trigger] in_partition(rv, s) by {
                assert(in_partition(p, s));
                let u = choose|u: int| 0 <= u < p.len() && (#[trigger] p[u]).contains(s);
                let j = choose|j: int| 0 <= j < r@.len() && #[trigger] views_of(r@)[j].contains(s);
            }
            assert forall|j: int, k: int| 0 <= j < rv.len() && 0 <= k < rv[j].len() implies #[trigger] rv[j][k] < n by {
                assert(rv[j].contains(rv[j][k]));
                assert(within(rv[j], p[origin[j]]));
                assert(p[origin[j]].contains(rv[j][k]));
                let w = choose|w: int| 0 <= w < p[origin[j]].len() && p[origin[j]][w] == rv[j][k];
            }
        }
        r
    }
}


impl Minimizer {
    /// The first partition: the states grouped by the lists of patterns they
    /// accept, in the order in which these first occur, so that states that
    /// accept differently are never merged.
    pub fn calculate_initial_partition(dfa: &Dfa) -> (r: Vec<Vec<usize>>)
        ensures
            partition_ok(views_of(r@), dfa.states@.len() as int),
            accepts_consistent(*dfa, views_of(r@)),
            forall|j1: int, j2: int, a: int, b: int| 0 <= j1 < r@.len() && 0 <= j2 < r@.len() && j1 != j2
                && 0 <= a < r@[j1]@.len() && 0 <= b < r@[j2]@.len()
                ==> !patterns_same(dfa.states@[(#[trigger] r@[j1]@[a]) as int].accepts@,
                    dfa.states@[(#[trigger] r@[j2]@[b]) as int].accepts@),
            forall|j1: int, j2: int| 0 <= j1 < j2 < r@.len() ==> (#[trigger] r@[j1]@)[0] < (#[trigger] r@[j2]@)[0],
    {
        let mut parts: Vec<Vec<usize>> = Vec::new();
        let mut reps: Vec<usize> = Vec::new();
        let mut s: usize = 0;
        while s < dfa.states.len()
            invariant
                s <= dfa.states@.len(),
                parts@.len() == reps@.len(),
                forall|j: int| 0 <= j < reps@.len() ==> #[trigger] reps@[j] < s,
                forall|j: int| 0 <= j < parts@.len() ==> (#[trigger] views_of(parts@)[j]).len() > 0 && strictly_sorted(views_of(parts@)[j]),
                forall|j: int, x: usize| 0 <= j < parts@.len() && #[trigger] views_of(parts@)[j].contains(x) ==> x < s,
                forall|x: usize| x < s ==> #[trigger] in_partition(views_of(parts@), x),
                forall|j1: int, j2: int, x: usize| 0 <= j1 < parts@.len() && 0 <= j2 < parts@.len() && j1 != j2
                    && #[trigger] views_of(parts@)[j1].contains(x) ==> !#[trigger] views_of(parts@)[j2].contains(x),
                forall|j: int, k: int| 0 <= j < parts@.len() && 0 <= k < views_of(parts@)[j].len()
                    ==> patterns_same(dfa.states@[reps@[j] as int].accepts@, dfa.states@[(#[trigger] views_of(parts@)[j][k]) as int].accepts@),
                forall|j1: int, j2: int| 0 <= j1 < reps@.len() && 0 <= j2 < reps@.len() && j1 != j2
                    ==> !patterns_same(dfa.states@[(#[trigger] reps@[j1]) as int].accepts@, dfa.states@[(#[trigger] reps@[j2]) as int].accepts@),
                forall|j1: int, j2: int| 0 <= j1 < j2 < parts@.len()
                    ==> (#[trigger] views_of(parts@)[j1])[0] < (#[trigger] views_of(parts@)[j2])[0],
            decreases dfa.states.len() - s,
        {
            let ghost pv0 = views_of(parts@);
            let mut j: usize = 0;
            let mut found = false;
            while j < reps.len()
                invariant_except_break
                    !found,
                invariant
                    j <= reps@.len(),
                    s < dfa.states@.len(),
                    forall|u: int| 0 <= u < reps@.len() ==> #[trigger] reps@[u] < s,
                    forall|u: int| 0 <= u < j ==> !patterns_same(dfa.states@[(#[trigger] reps@[u]) as int].accepts@, dfa.states@[s as int].accepts@),
                ensures
                    found ==> j < reps@.len() && patterns_same(dfa.states@[reps@[j as int] as int].accepts@, dfa.states@[s as int].accepts@),
                    !found ==> j == reps@.len(),
                decreases reps.len() - j,
            {
                if same_patterns(&dfa.states[reps[j]].accepts, &dfa.states[s].accepts) {
                    found = true;
                    break;
                }
                j = j + 1;
            }
            if found {
                parts[j].push(s);
            } else {
                let mut part: Vec<usize> = Vec::new();
                part.push(s);
                parts.push(part);
                reps.push(s);
            }
            proof {
                let pv = views_of(parts@);
                let n0 = pv0.len() as int;
                assert forall|u: int| 0 <= u < pv.len() && u != j implies #[trigger] pv[u] == pv0[u] by {}
                assert(pv[j as int] == if found { pv0[j as int].push(s) } else { seq![s] });
                assert forall|u: int, x: usize| 0 <= u < pv.len() && #[trigger] pv[u].contains(x) implies x < s + 1 by {
                    if u == j {
                        let w = choose|w: int| 0 <= w < pv[u].len() && pv[u][w] == x;
                        if w < pv[u].len() - 1 {
                            assert(pv0[u][w] == x);
                            assert(pv0[u].contains(x));
                        }
                    } else {
                        assert(pv0[u].contains(x));
                    }
                }
                assert forall|u: int| 0 <= u < pv.len() implies (#[trigger] pv[u]).len() > 0 && strictly_sorted(pv[u]) by {
                    if u == j && found {
                        assert forall|a: int, b: int| 0 <= a < b < pv[u].len() implies pv[u][a] < pv[u][b] by {
                            if b == pv[u].len() - 1 {
                                assert(pv0[u].contains(pv[u][a]));
                            }
                        }
                    }
                }
                assert forall|x: usize| x < s + 1 implies #[trigger] in_partition(pv, x) by {
                    if x < s {
                        assert(in_partition(pv0, x));
                        let u = choose|u: int| 0 <= u < pv0.len() && (#[trigger] pv0[u]).contains(x);
                        let w = choose|w: int| 0 <= w < pv0[u].len() && pv0[u][w] == x;
                        assert(pv[u][w] == x);
                        assert(pv[u].contains(x));
                    } else {
                        assert(pv[j as int][pv[j as int].len() - 1] == x);
                        assert(pv[j as int].contains(x));
                    }
                }
                assert forall|j1: int, j2: int, x: usize| 0 <= j1 < pv.len() && 0 <= j2 < pv.len() && j1 != j2
                    && #[trigger] pv[j1].contains(x) implies !#[trigger] pv[j2].contains(x) by {
                    if pv[j2].contains(x) {
                        if x == s {
                            if j1 != j {
                                assert(pv0[j1].contains(s));
                            } else {
                                assert(pv0[j2].contains(s));
                            }
                        } else {
                            if j1 == j {
                                let w = choose|w: int| 0 <= w < pv[j1].len() && pv[j1][w] == x;
                                assert(pv0[j1][w] == x);
                                assert(pv0[j1].contains(x));
                            }
                            if j2 == j {
                                let w = choose|w: int| 0 <= w < pv[j2].len() && pv[j2][w] == x;
                                assert(pv0[j2][w] == x);
                                assert(pv0[j2].contains(x));
                            }
                        }
                    }
                }
                assert forall|j1: int, j2: int| 0 <= j1 < j2 < pv.len() implies (#[trigger] pv[j1])[0] < (#[trigger] pv[j2])[0] by {
                    if j1 != j && j2 != j {
                        assert(pv[j1] == pv0[j1] && pv[j2] == pv0[j2]);
                    } else if found {
                        assert(pv[j as int][0] == pv0[j as int][0]);
                        assert(pv[j1][0] == pv0[j1][0] && pv[j2][0] == pv0[j2][0]);
                    } else {
                        assert(j2 == j);
                        assert(pv[j1] == pv0[j1]);
                        assert(pv0[j1].contains(pv0[j1][0]));
                    }
                }
                assert forall|u: int, k: int| 0 <= u < pv.len() && 0 <= k < pv[u].len()
                    implies patterns_same(dfa.states@[reps@[u] as int].accepts@, dfa.states@[(#[trigger] pv[u][k]) as int].accepts@) by {
                    if u == j && k == pv[u].len() - 1 {
                        lemma_patterns_same_equiv(dfa.states@[s as int].accepts@, dfa.states@[s as int].accepts@, dfa.states@[s as int].accepts@);
                    } else if u == j {
                        assert(pv[u][k] == pv0[u][k]);
                    }
                }
                assert forall|j1: int, j2: int| 0 <= j1 < reps@.len() && 0 <= j2 < reps@.len() && j1 != j2
                    implies !patterns_same(dfa.states@[(#[trigger] reps@[j1]) as int].accepts@, dfa.states@[(#[trigger] reps@[j2]) as int].accepts@) by {
                    if !found && j2 == reps@.len() - 1 {
                        assert(!patterns_same(dfa.states@[reps@[j1] as int].accepts@, dfa.states@[s as int].accepts@));
                    } else if !found && j1 == reps@.len() - 1 {
                        assert(!patterns_same(dfa.states@[reps@[j2] as int].accepts@, dfa.states@[s as int].accepts@));
                        lemma_patterns_same_equiv(dfa.states@[s as int].accepts@, dfa.states@[reps@[j2] as int].accepts@, dfa.states@[s as int].accepts@);
                    }
                }
            }
            s = s + 1;
        }
        proof {
            let pv = views_of(parts@);
            assert forall|j1: int, j2: int| 0 <= j1 < j2 < parts@.len() implies (#[trigger] parts@[j1]@)[0] < (#[trigger] parts@[j2]@)[0] by {
                assert(pv[j1] == parts@[j1]@ && pv[j2] == parts@[j2]@);
            }
            assert forall|j1: int, j2: int, a: int, b: int| 0 <= j1 < parts@.len() && 0 <= j2 < parts@.len() && j1 != j2
                && 0 <= a < parts@[j1]@.len() && 0 <= b < parts@[j2]@.len()
                implies !patterns_same(dfa.states@[(#[trigger] parts@[j1]@[a]) as int].accepts@,
                    dfa.states@[(#[trigger] parts@[j2]@[b]) as int].accepts@) by {
                assert(pv[j1] == parts@[j1]@ && pv[j2] == parts@[j2]@);
                let r1 = dfa.states@[reps@[j1] as int].accepts@;
                let r2 = dfa.states@[reps@[j2] as int].accepts@;
                let x = dfa.states@[pv[j1][a] as int].accepts@;
                let y = dfa.states@[pv[j2][b] as int].accepts@;
                assert(patterns_same(r1, x) && patterns_same(r2, y));
                assert(!patterns_same(r1, r2));
                lemma_patterns_same_equiv(r1, x, y);
                lemma_patterns_same_equiv(y, r2, r2);
                lemma_patterns_same_equiv(r1, y, r2);
            }
            assert forall|q: int, a: int, b: int| 0 <= q < pv.len() && 0 <= a < pv[q].len() && 0 <= b < pv[q].len()
                implies patterns_same(dfa.states@[(#[trigger] pv[q][a]) as int].accepts@, dfa.states@[(#[trigger] pv[q][b]) as int].accepts@) by {
                let r = dfa.states@[reps@[q] as int].accepts@;
                let x = dfa.states@[pv[q][a] as int].accepts@;
                let y = dfa.states@[pv[q][b] as int].accepts@;
                lemma_patterns_same_equiv(r, x, y);
                lemma_patterns_same_equiv(x, r, y);
            }

            assert forall|q: int, k: int| 0 <= q < pv.len() && 0 <= k < pv[q].len() implies #[trigger] pv[q][k] < dfa.states@.len() by {
                assert(pv[q].contains(pv[q][k]));
            }
        }
        parts
    }
}


/// The new number of group `q` when group `z` comes first.
pub open spec fn renumber(q: int, z: int) -> int {
    if q == z {
        0
    } else if q < z {
        q + 1
    } else {
        q
    }
}

/// Whether some state `s` of the DFA is mapped to `r` and `r` accepts copies
/// of what `s` accepts.
pub open spec fn represented(dfa: Dfa, min: Dfa, cls: Seq<usize>, r: int) -> bool {
    exists|s: int| 0 <= s < cls.len() && #[trigger] cls[s] == r && {
        let a = min.states@[r].accepts@;
        let b = dfa.states@[s].accepts@;
        &&& a.len() == b.len()
        &&& forall|k: int| 0 <= k < a.len() ==> pattern_same(#[trigger] a[k], b[k])
    }
}

/// `min` is the quotient of `dfa` by the mapping `cls` of its states: state 0
/// is mapped to state 0, every state of `min` has a state mapped to it and
/// accepts what it accepts, every state is mapped to a state that accepts the
/// same patterns (so the same priorities and token types), and whose
/// transitions are its own with the targets mapped.
pub open spec fn quotient(dfa: Dfa, min: Dfa, cls: Seq<usize>) -> bool {
    &&& cls.len() == dfa.states@.len()
    &&& cls.len() > 0
    &&& cls[0] == 0
    &&& forall|s: int| 0 <= s < cls.len() ==> #[trigger] cls[s] < min.states@.len()
    &&& forall|r: int| 0 <= r < min.states@.len() ==> #[trigger] represented(dfa, min, cls, r)
    &&& forall|s: int| 0 <= s < cls.len() ==> accept_keys(min.states@[#[trigger] cls[s] as int]) == accept_keys(dfa.states@[s])
    &&& forall|s: int| 0 <= s < cls.len() ==> patterns_same(min.states@[#[trigger] cls[s] as int].accepts@, dfa.states@[s].accepts@)
    &&& forall|s: int| 0 <= s < cls.len() ==> transition_map(min)[#[trigger] cls[s] as int]
        == transition_map(dfa)[s].map_values(|t: (usize, usize)| (t.0, cls[t.1 as int]))
}

/// A refinement of a partition keeps the accepted patterns the same within
/// each group.
proof fn lemma_refine_consistent(dfa: Dfa, old_p: Seq<Seq<usize>>, new_p: Seq<Seq<usize>>)
    requires
        accepts_consistent(dfa, old_p),
        refines(new_p, old_p),
    ensures
        accepts_consistent(dfa, new_p),
{
    assert forall|q: int, a: int, b: int| 0 <= q < new_p.len() && 0 <= a < new_p[q].len() && 0 <= b < new_p[q].len()
        implies patterns_same(dfa.states@[(#[trigger] new_p[q][a]) as int].accepts@, dfa.states@[(#[trigger] new_p[q][b]) as int].accepts@) by {
        assert(within_some(new_p[q], old_p));
        let u = choose|u: int| 0 <= u < old_p.len() && #[trigger] within(new_p[q], old_p[u]);
        assert(new_p[q].contains(new_p[q][a]));
        assert(new_p[q].contains(new_p[q][b]));
        let ia = choose|i: int| 0 <= i < old_p[u].len() && old_p[u][i] == new_p[q][a];
        let ib = choose|i: int| 0 <= i < old_p[u].len() && old_p[u][i] == new_p[q][b];
        assert(patterns_same(dfa.states@[old_p[u][ia] as int].accepts@, dfa.states@[old_p[u][ib] as int].accepts@));
    }
}

impl Minimizer {
    /// Copies of the patterns a state accepts.
    fn copy_accepts(state: &DfaState) -> (r: Vec<Pattern>)
        ensures
            r@.len() == state.accepts@.len(),
            forall|k: int| 0 <= k < r@.len() ==> pattern_same(#[trigger] r@[k], state.accepts@[k]),
    {
        let mut r: Vec<Pattern> = Vec::new();
        let mut k: usize = 0;
        while k < state.accepts.len()
            invariant
                k <= state.accepts@.len(),
                r@.len() == k,
                forall|u: int| 0 <= u < k ==> pattern_same(#[trigger] r@[u], state.accepts@[u]),
            decreases state.accepts.len() - k,
        {
            r.push(state.accepts[k].duplicate());
            k = k + 1;
        }
        r
    }

    /// The DFA of a stable partition: one state per group, the group of the
    /// start state first, each a copy of the first state of its group with
    /// its targets renumbered by their groups.
    pub fn create_from_partition(dfa: &Dfa, partition: &Vec<Vec<usize>>, transitions: &Vec<Vec<(usize, usize)>>) -> (r: Dfa)
        requires
            dfa_ok(*dfa),
            views_of(transitions@) == transition_map(*dfa),
            partition_ok(views_of(partition@), dfa.states@.len() as int),
            accepts_consistent(*dfa, views_of(partition@)),
            stable(views_of(transitions@), views_of(partition@)),
        ensures
            r.states@.len() == partition@.len(),
            quotient(*dfa, r, Seq::new(dfa.states@.len(), |s: int|
                renumber(group_index(views_of(partition@), s as usize), Self::start_group(*dfa, views_of(partition@))) as usize)),
    {
        let ghost p = views_of(partition@);
        let ghost tm = views_of(transitions@);
        let ghost n = dfa.states@.len() as int;
        proof {
            assert(in_partition(p, 0));
            let w = choose|q: int| 0 <= q < p.len() && (#[trigger] p[q]).contains(0usize);
            assert(partition@[w]@ == p[w]);
        }
        let z = match Self::find_group(0, partition) {
            Some(z) => z,
            None => {
                assert(false);
                0
            },
        };
        proof {
            assert(partition@[z as int]@ == p[z as int]);
            lemma_group_index(p, n, z as int, 0);
            assert(z == Self::start_group(*dfa, p));
            assert forall|s: int, k: int| 0 <= s < tm.len() && 0 <= k < tm[s].len() implies (#[trigger] tm[s][k]).1 < tm.len() by {
                assert(tm[s][k].1 == dfa.states@[s].transitions@[k].target);
            }
        }
        let ghost cls = Seq::new(dfa.states@.len(), |s: int| renumber(group_index(p, s as usize), z as int) as usize);
        let m = partition.len();
        let mut states: Vec<DfaState> = Vec::new();
        let mut r: usize = 0;
        while r < m
            invariant
                r <= m,
                m == p.len(),
                p == views_of(partition@),
                tm == views_of(transitions@),
                tm == transition_map(*dfa),
                n == dfa.states@.len(),
                n == tm.len(),
                dfa_ok(*dfa),
                partition_ok(p, n),
                map_ok(tm),
                z < m,
                p[z as int].contains(0usize),
                cls == Seq::new(dfa.states@.len(), |s: int| renumber(group_index(p, s as usize), z as int) as usize),
                states@.len() == r,
                forall|u: int| 0 <= u < r ==> {
                    let q = if u == 0 { z as int } else if u <= z { u - 1 } else { u };
                    let rep = p[q][0];
                    &&& (#[trigger] states@[u]).accepts@.len() == dfa.states@[rep as int].accepts@.len()
                    &&& forall|k: int| 0 <= k < states@[u].accepts@.len() ==> pattern_same(#[trigger] states@[u].accepts@[k], dfa.states@[rep as int].accepts@[k])
                    &&& states@[u].transitions@.map_values(|t: DfaTransition| (t.elementary_interval_index, t.target))
                        == tm[rep as int].map_values(|t: (usize, usize)| (t.0, cls[t.1 as int]))
                },
            decreases m - r,
        {
            let q = if r == 0 { z } else if r <= z { r - 1 } else { r };
            let group = &partition[q];
            assert(group@ == p[q as int]);
            let rep = group[0];
            assert(p[q as int].contains(rep));
            assert(rep < n);
            let accepts = Self::copy_accepts(&dfa.states[rep]);
            let ts = &transitions[rep];
            assert(ts@ == tm[rep as int]);
            let mut out: Vec<DfaTransition> = Vec::new();
            let mut k: usize = 0;
            while k < ts.len()
                invariant
                    k <= ts@.len(),
                    ts@ == tm[rep as int],
                    rep < n,
                    p == views_of(partition@),
                    n == tm.len(),
                    partition_ok(p, n),
                    map_ok(tm),
                    z < p.len(),
                    cls == Seq::new(n as nat, |s: int| renumber(group_index(p, s as usize), z as int) as usize),
                    out@.len() == k,
                    forall|i: int| 0 <= i < k ==> (#[trigger] out@[i]).elementary_interval_index == ts@[i].0
                        && out@[i].target == cls[ts@[i].1 as int],
                decreases ts.len() - k,
            {
                let (cc, target) = ts[k];
                assert(tm[rep as int][k as int] == (cc, target));
                assert(target < n);
                assert(in_partition(p, target));
                let q2 = match Self::find_group(target, partition) {
                    Some(q2) => q2,
                    None => {
                        proof {
                            let w = choose|w: int| 0 <= w < p.len() && (#[trigger] p[w]).contains(target);
                            assert(partition@[w]@ == p[w]);
                        }
                        assert(false);
                        0
                    },
                };
                proof {
                    assert(partition@[q2 as int]@ == p[q2 as int]);
                    lemma_group_index(p, n, q2 as int, target);
                }
                let renumbered = if q2 == z { 0 } else if q2 < z { q2 + 1 } else { q2 };
                assert(renumbered == cls[target as int]);
                out.push(DfaTransition::new(cc, renumbered));
                k = k + 1;
            }
            assert(out@.map_values(|t: DfaTransition| (t.elementary_interval_index, t.target))
                =~= tm[rep as int].map_values(|t: (usize, usize)| (t.0, cls[t.1 as int])));
            states.push(DfaState { transitions: out, accepts });
            r = r + 1;
        }
        let min = Dfa { states };
        proof {
            assert(dfa.states@.len() == dfa.states.len());
            Self::lemma_quotient(*dfa, min, p, tm, z as int, cls);
        }
        min
    }

    /// The group that holds the start state.
    pub open spec fn start_group(dfa: Dfa, p: Seq<Seq<usize>>) -> int {
        group_index(p, 0)
    }

    proof fn lemma_quotient(dfa: Dfa, min: Dfa, p: Seq<Seq<usize>>, tm: Seq<Seq<(usize, usize)>>, z: int, cls: Seq<usize>)
        requires
            dfa_ok(dfa),
            tm == transition_map(dfa),
            partition_ok(p, dfa.states@.len() as int),
            accepts_consistent(dfa, p),
            stable(tm, p),
            0 <= z < p.len(),
            p.len() <= usize::MAX,
            dfa.states@.len() <= usize::MAX,
            p[z].contains(0usize),
            cls == Seq::new(dfa.states@.len(), |s: int| renumber(group_index(p, s as usize), z) as usize),
            min.states@.len() == p.len(),
            forall|u: int| 0 <= u < p.len() ==> {
                let q = if u == 0 { z } else if u <= z { u - 1 } else { u };
                let rep = p[q][0];
                &&& (#[trigger] min.states@[u]).accepts@.len() == dfa.states@[rep as int].accepts@.len()
                &&& forall|k: int| 0 <= k < min.states@[u].accepts@.len() ==> pattern_same(#[trigger] min.states@[u].accepts@[k], dfa.states@[rep as int].accepts@[k])
                &&& min.states@[u].transitions@.map_values(|t: DfaTransition| (t.elementary_interval_index, t.target))
                    == tm[rep as int].map_values(|t: (usize, usize)| (t.0, cls[t.1 as int]))
            },
        ensures
            quotient(dfa, min, cls),
    {
        let n = dfa.states@.len() as int;
        lemma_group_index(p, n, z, 0);
        assert forall|s: int| 0 <= s < cls.len() implies #[trigger] cls[s] < min.states@.len() by {
            assert(in_partition(p, s as usize));
            let w = choose|q: int| 0 <= q < p.len() && (#[trigger] p[q]).contains(s as usize);
            lemma_group_index(p, n, w, s as usize);
            assert(renumber(w, z) < p.len());
        }
        assert forall|r: int| 0 <= r < min.states@.len() implies #[trigger] represented(dfa, min, cls, r) by {
            let q = if r == 0 { z } else if r <= z { r - 1 } else { r };
            let rep = p[q][0];
            assert(p[q].contains(rep));
            assert(rep < n);
            lemma_group_index(p, n, q, rep);
            assert(renumber(q, z) == r);
            assert(cls[rep as int] == r);
            let a = min.states@[r].accepts@;
            let b = dfa.states@[rep as int].accepts@;
            assert(forall|k: int| 0 <= k < a.len() ==> pattern_same(#[trigger] a[k], b[k]));
        }
        assert forall|s: int| 0 <= s < cls.len() implies {
            &&& accept_keys(min.states@[#[trigger] cls[s] as int]) == accept_keys(dfa.states@[s])
            &&& patterns_same(min.states@[cls[s] as int].accepts@, dfa.states@[s].accepts@)
            &&& transition_map(min)[cls[s] as int] == transition_map(dfa)[s].map_values(|t: (usize, usize)| (t.0, cls[t.1 as int]))
        } by {
            assert(in_partition(p, s as usize));
            let q = choose|q: int| 0 <= q < p.len() && (#[trigger] p[q]).contains(s as usize);
            lemma_group_index(p, n, q, s as usize);
            assert(renumber(q, z) <= p.len());
            let r = cls[s];
            assert(r == renumber(q, z));
            let q_back = if r == 0 { z } else if r <= z { r - 1 } else { r as int };
            assert(q_back == q);
            let rep = p[q][0];
            let i_s = choose|i: int| 0 <= i < p[q].len() && p[q][i] == s as usize;
            // accepts
            let a = min.states@[r as int].accepts@;
            let b = dfa.states@[rep as int].accepts@;
            let c = dfa.states@[s].accepts@;
            assert(patterns_same(b, dfa.states@[p[q][i_s] as int].accepts@));
            assert(p[q][i_s] as int == s);
            assert(patterns_same(a, b));
            lemma_patterns_same_equiv(a, b, c);
            assert(patterns_same(a, c));
            assert(accept_keys(min.states@[r as int]) =~= accept_keys(dfa.states@[s])) by {
                assert forall|k: int| 0 <= k < a.len() implies (#[trigger] a[k]).priority == c[k].priority && a[k].terminal_type == c[k].terminal_type by {
                    assert(pattern_same(a[k], c[k]));
                }
            }
            // transitions
            assert(signature(tm, p, p[q][0] as int) == signature(tm, p, p[q][i_s] as int));
            assert(p[q][i_s] as int == s);
            let sig_rep = signature(tm, p, rep as int);
            let sig_s = signature(tm, p, s);
            assert(sig_rep == sig_s);
            let ts_rep = tm[rep as int];
            let ts_s = tm[s];
            assert(sig_rep.len() == ts_rep.len());
            assert(sig_s.len() == ts_s.len());
            assert forall|k: int| 0 <= k < ts_s.len() implies
                (#[trigger] ts_rep[k]).0 == ts_s[k].0 && cls[ts_rep[k].1 as int] == cls[ts_s[k].1 as int] by {
                assert(sig_rep[k] == sig_s[k]);
                assert(sig_rep[k] == (ts_rep[k].0, group_index(p, ts_rep[k].1) as usize));
                assert(sig_s[k] == (ts_s[k].0, group_index(p, ts_s[k].1) as usize));
                assert(ts_rep[k].1 < n);
                assert(ts_s[k].1 < n);
                assert(in_partition(p, ts_s[k].1));
                let w = choose|w: int| 0 <= w < p.len() && (#[trigger] p[w]).contains(ts_s[k].1);
                lemma_group_index(p, n, w, ts_s[k].1);
                assert(in_partition(p, ts_rep[k].1));
                let w2 = choose|w: int| 0 <= w < p.len() && (#[trigger] p[w]).contains(ts_rep[k].1);
                lemma_group_index(p, n, w2, ts_rep[k].1);
            }
            let lhs = transition_map(min)[r as int];
            assert(lhs == min.states@[r as int].transitions@.map_values(|t: DfaTransition| (t.elementary_interval_index, t.target)));
            assert(lhs =~= ts_s.map_values(|t: (usize, usize)| (t.0, cls[t.1 as int])));
        }
    }
}


impl Minimizer {
    /// Minimizes a DFA: states are grouped by what they accept, the groups
    /// are split until the states of each group move to the same groups on the
    /// same character classes, and each group becomes one state.
    pub fn minimize(dfa: Dfa) -> (r: Dfa)
        requires
            dfa_ok(dfa),
        ensures
            exists|cls: Seq<usize>| quotient(dfa, r, cls),
    {
        let transitions = Self::calculate_transitions(&dfa);
        let mut partition = Self::calculate_initial_partition(&dfa);
        proof {
            let tm = views_of(transitions@);
            assert forall|s: int, k: int| 0 <= s < tm.len() && 0 <= k < tm[s].len() implies (#[trigger] tm[s][k]).1 < tm.len() by {
                assert(tm[s][k].1 == dfa.states@[s].transitions@[k].target);
            }
        }
        loop
            invariant
                dfa_ok(dfa),
                views_of(transitions@) == transition_map(dfa),
                map_ok(views_of(transitions@)),
                transitions@.len() == dfa.states@.len(),
                partition_ok(views_of(partition@), dfa.states@.len() as int),
                accepts_consistent(dfa, views_of(partition@)),
            ensures
                partition_ok(views_of(partition@), dfa.states@.len() as int),
                accepts_consistent(dfa, views_of(partition@)),
                stable(views_of(transitions@), views_of(partition@)),
            decreases usize::MAX - partition.len(),
        {
            let new_partition = Self::calculate_new_partition(&partition, &transitions);
            if new_partition.len() == partition.len() {
                break;
            }
            proof {
                lemma_refine_consistent(dfa, views_of(partition@), views_of(new_partition@));
            }
            partition = new_partition;
        }
        let min = Self::create_from_partition(&dfa, &partition, &transitions);
        min
    }
}

} // verus!
