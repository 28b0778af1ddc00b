//! Character classes of the patterns, and their split into disjoint groups of
//! elementary character intervals.
use vstd::prelude::*;
use crate::class_table::{intervals_wf, CharClassTable};
use vstd::utf8::is_scalar;
use crate::text::{str_to_chars, utf8_to_string};

verus! {

/// The characters of a class: one literal character, or canonical ranges
/// `start..=end` (sorted, disjoint, not adjacent).
pub enum CharacterClassKind {
    Literal(char),
    Ranges(Vec<(char, char)>),
}

/// Whether the class holds every character of `a..=b`.
pub open spec fn kind_covers(k: CharacterClassKind, a: char, b: char) -> bool {
    match k {
        CharacterClassKind::Literal(x) => a == x && b == x,
        CharacterClassKind::Ranges(rs) => exists|i: int|
            0 <= i < rs@.len() && (#[trigger] rs@[i]).0 <= a && b <= rs@[i].1,
    }
}

/// Two class kinds hold the same literal or the same ranges.
pub open spec fn kind_eq(k1: CharacterClassKind, k2: CharacterClassKind) -> bool {
    match (k1, k2) {
        (CharacterClassKind::Literal(a), CharacterClassKind::Literal(b)) => a == b,
        (CharacterClassKind::Ranges(r1), CharacterClassKind::Ranges(r2)) => r1@ == r2@,
        _ => false,
    }
}

impl CharacterClassKind {
    /// Whether both kinds hold the same literal or the same ranges.
    pub fn same_as(&self, other: &CharacterClassKind) -> (b: bool)
        ensures
            b == kind_eq(*self, *other),
    {
        match (self, other) {
            (CharacterClassKind::Literal(a), CharacterClassKind::Literal(b)) => *a == *b,
            (CharacterClassKind::Ranges(r1), CharacterClassKind::Ranges(r2)) => {
                if r1.len() != r2.len() {
                    return false;
                }
                let mut i: usize = 0;
                while i < r1.len()
                    invariant
                        i <= r1@.len(),
                        r1@.len() == r2@.len(),
                        forall|k: int| 0 <= k < i ==> r1@[k] == r2@[k],
                        kind_eq(*self, *other) <==> r1@ == r2@,
                    decreases r1.len() - i,
                {
                    if r1[i].0 != r2[i].0 || r1[i].1 != r2[i].1 {
                        assert(r1@[i as int] != r2@[i as int]);
                        return false;
                    }
                    i = i + 1;
                }
                assert(r1@ =~= r2@);
                true
            },
            _ => false,
        }
    }

    /// A copy of this kind.
    pub fn duplicate(&self) -> (r: CharacterClassKind)
        ensures
            kind_eq(r, *self),
    {
        match self {
            CharacterClassKind::Literal(c) => CharacterClassKind::Literal(*c),
            CharacterClassKind::Ranges(rs) => {
                let mut v: Vec<(char, char)> = Vec::new();
                let mut i: usize = 0;
                while i < rs.len()
                    invariant
                        i <= rs@.len(),
                        v@ == rs@.take(i as int),
                    decreases rs.len() - i,
                {
                    v.push(rs[i]);
                    i = i + 1;
                }
                assert(v@ =~= rs@);
                CharacterClassKind::Ranges(v)
            },
        }
    }

    /// Whether the class holds every character of the interval `a..=b`.
    pub fn contains_interval(&self, a: char, b: char) -> (r: bool)
        ensures
            r == kind_covers(*self, a, b),
    {
        match self {
            CharacterClassKind::Literal(x) => a == *x && b == *x,
            CharacterClassKind::Ranges(rs) => {
                let mut i: usize = 0;
                while i < rs.len()
                    invariant
                        i <= rs@.len(),
                        forall|k: int| 0 <= k < i ==> !((#[trigger] rs@[k]).0 <= a && b <= rs@[k].1),
                        kind_covers(*self, a, b) <==> exists|k: int|
                            0 <= k < rs@.len() && (#[trigger] rs@[k]).0 <= a && b <= rs@[k].1,
                    decreases rs.len() - i,
                {
                    if rs[i].0 <= a && b <= rs[i].1 {
                        assert(rs@[i as int].0 <= a && b <= rs@[i as int].1);
                        return true;
                    }
                    i = i + 1;
                }
                false
            },
        }
    }
}

/// A character class with the indices of the disjoint groups that make it up.
pub struct CharacterClass {
    pub characters: CharacterClassKind,
    pub intervals: Vec<usize>,
}

impl CharacterClass {
    /// Creates a class of the given characters, not yet split into groups.
    pub fn new(characters: CharacterClassKind) -> (c: Self)
        ensures
            c.characters == characters,
            c.intervals@.len() == 0,
    {
        CharacterClass { characters, intervals: Vec::new() }
    }

    /// Adds the index of a disjoint group, unless it is already there.
    pub fn add_disjoint_interval(&mut self, interval_index: usize)
        ensures
            final(self).characters == old(self).characters,
            final(self).intervals@.to_set() == old(self).intervals@.to_set().insert(interval_index),
            old(self).intervals@.no_duplicates() ==> final(self).intervals@.no_duplicates(),
            old(self).intervals@.contains(interval_index) ==> final(self).intervals@ == old(self).intervals@,
            !old(self).intervals@.contains(interval_index) ==> final(self).intervals@ == old(self).intervals@.push(interval_index),
    {
        let mut i: usize = 0;
        while i < self.intervals.len()
            invariant
                i <= self.intervals@.len(),
                forall|k: int| 0 <= k < i ==> self.intervals@[k] != interval_index,
            decreases self.intervals.len() - i,
        {
            if self.intervals[i] == interval_index {
                assert(self.intervals@.to_set() =~= self.intervals@.to_set().insert(interval_index));
                return;
            }
            i = i + 1;
        }
        let ghost before = self.intervals@;
        self.intervals.push(interval_index);
        assert forall|x: usize| #[trigger] self.intervals@.to_set().contains(x) <==> before.to_set().insert(interval_index).contains(x) by {
            if x == interval_index {
                assert(self.intervals@[before.len() as int] == x);
            } else if before.contains(x) {
                let k = choose|k: int| 0 <= k < before.len() && before[k] == x;
                assert(self.intervals@[k] == x);
            } else if self.intervals@.contains(x) {
                let k = choose|k: int| 0 <= k < self.intervals@.len() && self.intervals@[k] == x;
                assert(k < before.len());
                assert(before[k] == x);
            }
        }
        assert(self.intervals@.to_set() =~= before.to_set().insert(interval_index));
    }
}


/// The value of `char::from_u32`: `Some` exactly for Unicode scalar values.
#[verifier::external_body]
fn char_from_u32(v: u32) -> (r: Option<char>)
    ensures
        r is Some <==> is_scalar(v),
        r matches Some(c) ==> c as u32 == v,
{
    char::from_u32(v)
}

/// The boundary after a range that ends at `e`: the next character, or
/// `char::MAX` where `e + 1` is no character.
pub open spec fn after_end(e: char) -> u32 {
    if is_scalar((e as u32 + 1) as u32) {
        (e as u32 + 1) as u32
    } else {
        0x10FFFFu32
    }
}

/// Whether `b` is a boundary contributed by the characters of a class: the
/// start of a range, or the boundary after its end.
pub open spec fn kind_has_bound(k: CharacterClassKind, b: u32) -> bool {
    match k {
        CharacterClassKind::Literal(x) => b == x as u32 || b == after_end(x),
        CharacterClassKind::Ranges(rs) => exists|j: int|
            0 <= j < rs@.len() && (b == (#[trigger] rs@[j]).0 as u32 || b == after_end(rs@[j].1)),
    }
}

/// Whether `b` is a boundary of some class of the sequence.
pub open spec fn is_boundary(classes: Seq<CharacterClass>, b: u32) -> bool {
    exists|i: int| 0 <= i < classes.len() && kind_has_bound(#[trigger] classes[i].characters, b)
}

/// A strictly increasing sequence.
pub open spec fn strictly_increasing(s: Seq<u32>) -> bool {
    forall|i: int, j: int| 0 <= i < j < s.len() ==> s[i] < s[j]
}

/// Two strictly increasing sequences with the same elements are equal.
pub proof fn lemma_increasing_unique(a: Seq<u32>, b: Seq<u32>)
    requires
        strictly_increasing(a),
        strictly_increasing(b),
        forall|x: u32| a.contains(x) <==> b.contains(x),
    ensures
        a == b,
    decreases a.len() + b.len(),
{
    if a.len() == 0 || b.len() == 0 {
        if a.len() > 0 {
            assert(a.contains(a[0]));
        }
        if b.len() > 0 {
            assert(b.contains(b[0]));
        }
        assert(a =~= b);
    } else {
        assert(a.contains(a.last()));
        assert(b.contains(b.last()));
        let ka = choose|k: int| 0 <= k < b.len() && b[k] == a.last();
        let kb = choose|k: int| 0 <= k < a.len() && a[k] == b.last();
        assert(a.last() == b.last()) by {
            if a.last() < b.last() {
                assert(a[kb] == b.last());
            } else if a.last() > b.last() {
                assert(b[ka] == a.last());
            }
        }
        let a2 = a.drop_last();
        let b2 = b.drop_last();
        assert forall|x: u32| a2.contains(x) <==> b2.contains(x) by {
            if a2.contains(x) {
                let k = choose|k: int| 0 <= k < a2.len() && a2[k] == x;
                assert(a.contains(x));
                let k2 = choose|k2: int| 0 <= k2 < b.len() && b[k2] == x;
                assert(k2 < b.len() - 1);
                assert(b2[k2] == x);
            }
            if b2.contains(x) {
                let k = choose|k: int| 0 <= k < b2.len() && b2[k] == x;
                assert(b.contains(x));
                let k2 = choose|k2: int| 0 <= k2 < a.len() && a[k2] == x;
                assert(k2 < a.len() - 1);
                assert(a2[k2] == x);
            }
        }
        lemma_increasing_unique(a2, b2);
        assert(a =~= a2.push(a.last()));
        assert(b =~= b2.push(b.last()));
    }
}

/// Inserts `x` into a strictly increasing vector, unless it is there already.
fn insert_sorted(v: &mut Vec<u32>, x: u32)
    requires
        strictly_increasing(old(v)@),
    ensures
        strictly_increasing(final(v)@),
        forall|y: u32| final(v)@.contains(y) <==> (old(v)@.contains(y) || y == x),
{
    let mut i: usize = 0;
    while i < v.len() && v[i] < x
        invariant
            i <= v@.len(),
            v@ == old(v)@,
            forall|k: int| 0 <= k < i ==> v@[k] < x,
        decreases v.len() - i,
    {
        i = i + 1;
    }
    if i < v.len() && v[i] == x {
        assert(v@[i as int] == x);
        assert(v@.contains(x));
        return;
    }
    let ghost before = v@;
    assert(before == old(v)@);
    assert(i < before.len() ==> x < before[i as int]);
    v.insert(i, x);
    assert forall|y: u32| v@.contains(y) <==> (before.contains(y) || y == x) by {
        if v@.contains(y) {
            let k = choose|k: int| 0 <= k < v@.len() && v@[k] == y;
            if k < i {
                assert(before[k] == y);
            } else if k > i {
                assert(before[k - 1] == y);
            }
        }
        if before.contains(y) {
            let k = choose|k: int| 0 <= k < before.len() && before[k] == y;
            if k < i {
                assert(v@[k] == y);
            } else {
                assert(v@[k + 1] == y);
            }
        }
        if y == x {
            assert(v@[i as int] == y);
        }
    }
    assert(forall|y: u32| v@.contains(y) <==> (old(v)@.contains(y) || y == x));
}

/// The boundary after a range that ends at `e`.
fn boundary_after(e: char) -> (b: u32)
    ensures
        b == after_end(e),
        is_scalar(b),
{
    let n: u32 = e as u32 + 1;
    match char_from_u32(n) {
        Some(_) => n,
        None => 0x10FFFF,
    }
}


/// Whether `b` is a boundary of one of the first `j` ranges.
#[verifier::opaque]
pub open spec fn bound_in_ranges(rs: Seq<(char, char)>, j: int, b: u32) -> bool {
    exists|k: int| 0 <= k < j && (b == (#[trigger] rs[k]).0 as u32 || b == after_end(rs[k].1))
}

/// Whether `b` is a boundary of one of the first `i` classes.
#[verifier::opaque]
pub open spec fn bound_in_classes(classes: Seq<CharacterClass>, i: int, b: u32) -> bool {
    exists|k: int| 0 <= k < i && kind_has_bound(#[trigger] classes[k].characters, b)
}

/// The character classes of the patterns, and their split into elementary
/// intervals and groups of intervals that belong to the same classes.
pub struct CharacterClasses {
    /// The classes, each one once.
    pub classes: Vec<CharacterClass>,
    /// The elementary intervals `start..=end`, in increasing order.
    pub elementary_intervals: Vec<(char, char)>,
    /// Groups of elementary intervals that belong to exactly the same classes;
    /// the index of a group is the number of a disjoint character class.
    pub intervals: Vec<Vec<(char, char)>>,
}

impl CharacterClasses {
    /// An empty set of character classes.
    pub fn new() -> (r: Self)
        ensures
            r.classes@.len() == 0,
            r.elementary_intervals@.len() == 0,
            r.intervals@.len() == 0,
    {
        CharacterClasses { classes: Vec::new(), elementary_intervals: Vec::new(), intervals: Vec::new() }
    }

    /// Adds a class, unless a class of the same characters is there already.
    pub fn add_hir(&mut self, class: CharacterClassKind)
        ensures
            final(self).elementary_intervals@ == old(self).elementary_intervals@,
            final(self).intervals@ == old(self).intervals@,
            (exists|i: int| 0 <= i < old(self).classes@.len()
                && kind_eq(#[trigger] old(self).classes@[i].characters, class))
                ==> final(self).classes@ == old(self).classes@,
            !(exists|i: int| 0 <= i < old(self).classes@.len()
                && kind_eq(#[trigger] old(self).classes@[i].characters, class))
                ==> final(self).classes@.len() == old(self).classes@.len() + 1
                && final(self).classes@.drop_last() == old(self).classes@
                && final(self).classes@.last().characters == class
                && final(self).classes@.last().intervals@.len() == 0,
    {
        let mut i: usize = 0;
        while i < self.classes.len()
            invariant
                i <= self.classes@.len(),
                forall|k: int| 0 <= k < i ==> !kind_eq(#[trigger] self.classes@[k].characters, class),
            decreases self.classes.len() - i,
        {
            if self.classes[i].characters.same_as(&class) {
                return;
            }
            i = i + 1;
        }
        self.classes.push(CharacterClass::new(class));
        assert(self.classes@.drop_last() =~= old(self).classes@);
    }

    /// The boundaries of all classes, in increasing order.
    #[verifier::spinoff_prover]
    fn collect_boundaries(&self) -> (v: Vec<u32>)
        ensures
            strictly_increasing(v@),
            forall|b: u32| v@.contains(b) <==> is_boundary(self.classes@, b),
            forall|k: int| 0 <= k < v@.len() ==> is_scalar(#[trigger] v@[k]),
    {
        let mut v: Vec<u32> = Vec::new();
        let mut i: usize = 0;
        proof {
            reveal(bound_in_classes);
        }
        while i < self.classes.len()
            invariant
                i <= self.classes@.len(),
                strictly_increasing(v@),
                forall|b: u32| v@.contains(b) <==> bound_in_classes(self.classes@, i as int, b),
                forall|b: u32| v@.contains(b) ==> is_scalar(b),
            decreases self.classes.len() - i,
        {
            let ghost v0 = v@;
            match &self.classes[i].characters {
                CharacterClassKind::Literal(c) => {
                    let c32: u32 = *c as u32;
                    insert_sorted(&mut v, c32);
                    let ghost v1 = v@;
                    let a = boundary_after(*c);
                    insert_sorted(&mut v, a);
                    proof {
                        vstd::utf8::char_is_scalar(*c);
                        assert forall|b: u32| v@.contains(b) <==> (v0.contains(b) || kind_has_bound(self.classes@[i as int].characters, b)) by {
                            assert(v@.contains(b) <==> (v1.contains(b) || b == a));
                            assert(v1.contains(b) <==> (v0.contains(b) || b == c32));
                        }
                    }
                },
                CharacterClassKind::Ranges(rs) => {
                    let mut j: usize = 0;
                    proof {
                        reveal(bound_in_ranges);
                    }
                    while j < rs.len()
                        invariant
                            j <= rs@.len(),
                            strictly_increasing(v@),
                            forall|b: u32| v@.contains(b) <==> (v0.contains(b) || bound_in_ranges(rs@, j as int, b)),
                            forall|b: u32| v@.contains(b) ==> is_scalar(b),
                            forall|b: u32| v0.contains(b) ==> is_scalar(b),
                        decreases rs.len() - j,
                    {
                        let (s, e) = rs[j];
                        let ghost vj = v@;
                        assert(forall|b: u32| vj.contains(b) <==> (v0.contains(b) || bound_in_ranges(rs@, j as int, b)));
                        let s32: u32 = s as u32;
                        insert_sorted(&mut v, s32);
                        let ghost vj1 = v@;
                        let a = boundary_after(e);
                        insert_sorted(&mut v, a);
                        proof {
                            vstd::utf8::char_is_scalar(s);
                            assert(rs@[j as int] == (s, e));
                            assert forall|b: u32| v@.contains(b) <==> (v0.contains(b) || bound_in_ranges(rs@, j + 1, b)) by {
                                assert(v@.contains(b) <==> (vj1.contains(b) || b == a));
                                reveal(bound_in_ranges);
                                assert(vj1.contains(b) <==> (vj.contains(b) || b == s32));
                                assert(vj.contains(b) <==> (v0.contains(b) || bound_in_ranges(rs@, j as int, b)));
                                if bound_in_ranges(rs@, j + 1, b) && !bound_in_ranges(rs@, j as int, b) {
                                    let k = choose|k: int| 0 <= k < j + 1 && (b == (#[trigger] rs@[k]).0 as u32 || b == after_end(rs@[k].1));
                                    assert(k == j);
                                }
                                if bound_in_ranges(rs@, j as int, b) {
                                    let k = choose|k: int| 0 <= k < j && (b == (#[trigger] rs@[k]).0 as u32 || b == after_end(rs@[k].1));
                                    assert(bound_in_ranges(rs@, j + 1, b));
                                }
                                if b == s32 || b == a {
                                    assert(bound_in_ranges(rs@, j + 1, b));
                                }
                            }
                        }
                        j = j + 1;
                    }
                    assert(j == rs@.len());
                    assert(forall|b: u32| v@.contains(b) <==> (v0.contains(b) || bound_in_ranges(rs@, j as int, b)));
                    assert(forall|b: u32| v@.contains(b) <==> (v0.contains(b) || bound_in_ranges(rs@, rs@.len() as int, b)));
                    proof {
                        assert(self.classes@[i as int].characters matches CharacterClassKind::Ranges(r2) && r2@ == rs@);
                        assert forall|b: u32| v@.contains(b) <==> (v0.contains(b) || kind_has_bound(self.classes@[i as int].characters, b)) by {
                            assert(v@.contains(b) <==> (v0.contains(b) || bound_in_ranges(rs@, rs@.len() as int, b)));
                            reveal(bound_in_ranges);
                            if bound_in_ranges(rs@, rs@.len() as int, b) {
                                let k = choose|k: int| 0 <= k < rs@.len() && (b == (#[trigger] rs@[k]).0 as u32 || b == after_end(rs@[k].1));
                                assert(kind_has_bound(self.classes@[i as int].characters, b));
                            }
                            if kind_has_bound(self.classes@[i as int].characters, b) {
                                let k = choose|k: int| 0 <= k < rs@.len() && (b == (#[trigger] rs@[k]).0 as u32 || b == after_end(rs@[k].1));
                                assert(bound_in_ranges(rs@, rs@.len() as int, b));
                            }
                        }
                    }
                },
            }
            proof {
                assert forall|b: u32| v@.contains(b) <==> bound_in_classes(self.classes@, i + 1, b) by {
                    assert(v@.contains(b) <==> (v0.contains(b) || kind_has_bound(self.classes@[i as int].characters, b)));
                    reveal(bound_in_classes);
                    if bound_in_classes(self.classes@, i + 1, b) && !bound_in_classes(self.classes@, i as int, b) {
                        let k = choose|k: int| 0 <= k < i + 1 && kind_has_bound(#[trigger] self.classes@[k].characters, b);
                        assert(k == i);
                    }
                    if bound_in_classes(self.classes@, i as int, b) {
                        let k = choose|k: int| 0 <= k < i && kind_has_bound(#[trigger] self.classes@[k].characters, b);
                        assert(bound_in_classes(self.classes@, i + 1, b));
                    }
                    if kind_has_bound(self.classes@[i as int].characters, b) {
                        assert(bound_in_classes(self.classes@, i + 1, b));
                    }
                }
            }
            i = i + 1;
        }
        proof {
            assert forall|b: u32| bound_in_classes(self.classes@, self.classes@.len() as int, b) <==> is_boundary(self.classes@, b) by {
                reveal(bound_in_classes);
                if is_boundary(self.classes@, b) {
                    let k = choose|k: int| 0 <= k < self.classes@.len() && kind_has_bound(#[trigger] self.classes@[k].characters, b);
                    assert(bound_in_classes(self.classes@, self.classes@.len() as int, b));
                }
            }
            assert forall|k: int| 0 <= k < v@.len() implies is_scalar(#[trigger] v@[k]) by {
                assert(v@.contains(v@[k]));
            }
        }
        v
    }
}


/// The interval between two consecutive boundaries `b0 < b1`: up to the
/// character before `b1`, or `b0` alone where `b1 - 1` is no character.
pub open spec fn candidate(b0: u32, b1: u32) -> (char, char) {
    if is_scalar((b1 - 1) as u32) {
        (b0 as char, (b1 - 1) as char)
    } else {
        (b0 as char, b0 as char)
    }
}

/// Whether some class holds every character of the interval.
pub open spec fn covered_by_some(classes: Seq<CharacterClass>, iv: (char, char)) -> bool {
    exists|c: int| 0 <= c < classes.len() && kind_covers(#[trigger] classes[c].characters, iv.0, iv.1)
}

/// The elementary intervals of the first `k` pairs of consecutive boundaries:
/// those held by some class.
pub open spec fn elementary_upto(bounds: Seq<u32>, classes: Seq<CharacterClass>, k: int) -> Seq<(char, char)>
    decreases k,
{
    if k <= 0 {
        Seq::empty()
    } else {
        let prev = elementary_upto(bounds, classes, k - 1);
        let iv = candidate(bounds[k - 1], bounds[k]);
        if covered_by_some(classes, iv) {
            prev.push(iv)
        } else {
            prev
        }
    }
}

/// The boundaries of the classes in increasing order.
pub open spec fn sorted_boundaries(classes: Seq<CharacterClass>) -> Seq<u32> {
    choose|s: Seq<u32>| strictly_increasing(s) && forall|b: u32| s.contains(b) <==> is_boundary(classes, b)
}

/// The elementary intervals of the classes.
pub open spec fn elementary_intervals_of(classes: Seq<CharacterClass>) -> Seq<(char, char)> {
    let bounds = sorted_boundaries(classes);
    elementary_upto(bounds, classes, bounds.len() - 1)
}

impl CharacterClasses {
    /// Whether some class holds every character of `start..=end`.
    fn any_class_covers(&self, start: char, end: char) -> (r: bool)
        ensures
            r == covered_by_some(self.classes@, (start, end)),
    {
        let mut c: usize = 0;
        while c < self.classes.len()
            invariant
                c <= self.classes@.len(),
                forall|k: int| 0 <= k < c ==> !kind_covers(#[trigger] self.classes@[k].characters, start, end),
            decreases self.classes.len() - c,
        {
            if self.classes[c].characters.contains_interval(start, end) {
                return true;
            }
            c = c + 1;
        }
        false
    }

    /// The elementary intervals between the given boundaries.
    fn elementary_from_bounds(&self, bounds: &Vec<u32>) -> (r: Vec<(char, char)>)
        requires
            strictly_increasing(bounds@),
            forall|k: int| 0 <= k < bounds@.len() ==> is_scalar(#[trigger] bounds@[k]),
        ensures
            r@ == elementary_upto(bounds@, self.classes@, bounds@.len() - 1),
    {
        let mut r: Vec<(char, char)> = Vec::new();
        if bounds.len() == 0 {
            return r;
        }
        let mut i: usize = 0;
        while i + 1 < bounds.len()
            invariant
                i + 1 <= bounds@.len(),
                strictly_increasing(bounds@),
                forall|k: int| 0 <= k < bounds@.len() ==> is_scalar(#[trigger] bounds@[k]),
                r@ == elementary_upto(bounds@, self.classes@, i as int),
            decreases bounds.len() - i,
        {
            let b0 = bounds[i];
            let b1 = bounds[i + 1];
            assert(b0 < b1);
            assert(is_scalar(bounds@[i as int]));
            let start = match char_from_u32(b0) {
                Some(c) => c,
                None => {
                    assert(false);
                    ' '
                },
            };
            let iv = match char_from_u32(b1 - 1) {
                Some(end) => (start, end),
                None => (start, start),
            };
            proof {
                vstd::utf8::char_u32_cast(start, b0);
                if is_scalar((b1 - 1) as u32) {
                    vstd::utf8::char_u32_cast(iv.1, (b1 - 1) as u32);
                }
            }
            assert(iv == candidate(bounds@[i as int], bounds@[i + 1]));
            if self.any_class_covers(iv.0, iv.1) {
                r.push(iv);
            }
            i = i + 1;
        }
        r
    }
}


/// The classes (by position) that hold every character of the interval.
pub open spec fn membership_of(classes: Seq<CharacterClass>, iv: (char, char)) -> Seq<bool> {
    Seq::new(classes.len(), |c: int| kind_covers(classes[c].characters, iv.0, iv.1))
}

/// The memberships of a sequence of intervals.
pub open spec fn memberships_of(classes: Seq<CharacterClass>, ivs: Seq<(char, char)>) -> Seq<Seq<bool>> {
    ivs.map_values(|iv: (char, char)| membership_of(classes, iv))
}

/// The distinct memberships among the first `k`, in order of first appearance.
pub open spec fn first_memberships(mems: Seq<Seq<bool>>, k: int) -> Seq<Seq<bool>>
    decreases k,
{
    if k <= 0 {
        Seq::empty()
    } else {
        let prev = first_memberships(mems, k - 1);
        if prev.contains(mems[k - 1]) {
            prev
        } else {
            prev.push(mems[k - 1])
        }
    }
}

/// The intervals among the first `k` whose membership is `m`, in order.
pub open spec fn members_upto(ivs: Seq<(char, char)>, mems: Seq<Seq<bool>>, m: Seq<bool>, k: int) -> Seq<(char, char)>
    decreases k,
{
    if k <= 0 {
        Seq::empty()
    } else {
        let prev = members_upto(ivs, mems, m, k - 1);
        if mems[k - 1] == m {
            prev.push(ivs[k - 1])
        } else {
            prev
        }
    }
}

/// The indices of the first `g` groups whose membership includes class `c`.
pub open spec fn groups_of_class(groups: Seq<Seq<bool>>, c: int, g: int) -> Seq<usize>
    decreases g,
{
    if g <= 0 {
        Seq::empty()
    } else {
        let prev = groups_of_class(groups, c, g - 1);
        if groups[g - 1][c] {
            prev.push((g - 1) as usize)
        } else {
            prev
        }
    }
}

proof fn lemma_groups_of_class_prefix(a: Seq<Seq<bool>>, b: Seq<Seq<bool>>, c: int, g: int)
    requires
        0 <= g <= a.len(),
        g <= b.len(),
        forall|i: int| 0 <= i < g ==> a[i] == b[i],
    ensures
        groups_of_class(a, c, g) == groups_of_class(b, c, g),
    decreases g,
{
    if g > 0 {
        lemma_groups_of_class_prefix(a, b, c, g - 1);
    }
}

proof fn lemma_groups_of_class_contains(groups: Seq<Seq<bool>>, c: int, g: int)
    requires
        0 <= g <= groups.len(),
        g <= usize::MAX,
    ensures
        forall|j: usize| #[trigger] groups_of_class(groups, c, g).contains(j) <==> (j < g && groups[j as int][c]),
        groups_of_class(groups, c, g).no_duplicates(),
    decreases g,
{
    if g > 0 {
        lemma_groups_of_class_contains(groups, c, g - 1);
        let prev = groups_of_class(groups, c, g - 1);
        assert forall|j: usize| #[trigger] groups_of_class(groups, c, g).contains(j) <==> (j < g && groups[j as int][c]) by {
            if groups[g - 1][c] {
                let cur = prev.push((g - 1) as usize);
                if cur.contains(j) {
                    let k = choose|k: int| 0 <= k < cur.len() && cur[k] == j;
                    if k < prev.len() {
                        assert(prev.contains(j));
                    }
                }
                if j < g && groups[j as int][c] {
                    if j < g - 1 {
                        assert(prev.contains(j));
                        let k = choose|k: int| 0 <= k < prev.len() && prev[k] == j;
                        assert(cur[k] == j);
                    } else {
                        assert(cur[prev.len() as int] == j);
                    }
                }
            }
        }
        if groups[g - 1][c] {
            let cur = prev.push((g - 1) as usize);
            assert(!prev.contains((g - 1) as usize));
            assert forall|a: int, b: int| 0 <= a < cur.len() && 0 <= b < cur.len() && a != b implies cur[a] != cur[b] by {
                if a == prev.len() {
                    assert(prev.contains(cur[b]));
                } else if b == prev.len() {
                    assert(prev.contains(cur[a]));
                }
            }
        }
    }
}

proof fn lemma_first_memberships_contains(mems: Seq<Seq<bool>>, k: int)
    requires
        0 <= k <= mems.len(),
    ensures
        forall|i: int| 0 <= i < k ==> first_memberships(mems, k).contains(#[trigger] mems[i]),
        forall|j: int| 0 <= j < first_memberships(mems, k).len() ==>
            exists|i: int| 0 <= i < k && mems[i] == #[trigger] first_memberships(mems, k)[j],
        first_memberships(mems, k).no_duplicates(),
        first_memberships(mems, k).len() <= k,
    decreases k,
{
    if k > 0 {
        lemma_first_memberships_contains(mems, k - 1);
        let prev = first_memberships(mems, k - 1);
        let cur = first_memberships(mems, k);
        assert forall|i: int| 0 <= i < k implies cur.contains(#[trigger] mems[i]) by {
            if i < k - 1 {
                assert(prev.contains(mems[i]));
                let t = choose|t: int| 0 <= t < prev.len() && prev[t] == mems[i];
                assert(cur[t] == mems[i]);
            } else if !prev.contains(mems[k - 1]) {
                assert(cur[prev.len() as int] == mems[i]);
            }
        }
        assert forall|j: int| 0 <= j < cur.len() implies exists|i: int| 0 <= i < k && mems[i] == #[trigger] cur[j] by {
            if j < prev.len() {
                assert(cur[j] == prev[j]);
                let i = choose|i: int| 0 <= i < k - 1 && mems[i] == #[trigger] prev[j];
                assert(mems[i] == cur[j]);
            } else {
                assert(mems[k - 1] == cur[j]);
            }
        }
    }
}

proof fn lemma_members_absent(ivs: Seq<(char, char)>, mems: Seq<Seq<bool>>, m: Seq<bool>, k: int)
    requires
        0 <= k <= mems.len(),
        forall|i: int| 0 <= i < k ==> mems[i] != m,
    ensures
        members_upto(ivs, mems, m, k) == Seq::<(char, char)>::empty(),
    decreases k,
{
    if k > 0 {
        lemma_members_absent(ivs, mems, m, k - 1);
    }
}

/// Whether two boolean vectors are equal.
fn same_bools(a: &Vec<bool>, b: &Vec<bool>) -> (r: bool)
    ensures
        r == (a@ == b@),
{
    if a.len() != b.len() {
        return false;
    }
    let mut i: usize = 0;
    while i < a.len()
        invariant
            i <= a@.len(),
            a@.len() == b@.len(),
            forall|k: int| 0 <= k < i ==> a@[k] == b@[k],
        decreases a.len() - i,
    {
        if a[i] != b[i] {
            assert(a@[i as int] != b@[i as int]);
            return false;
        }
        i = i + 1;
    }
    assert(a@ =~= b@);
    true
}

impl CharacterClasses {
    /// Which classes hold every character of `start..=end`.
    fn membership(&self, start: char, end: char) -> (r: Vec<bool>)
        ensures
            r@ == membership_of(self.classes@, (start, end)),
    {
        let mut r: Vec<bool> = Vec::new();
        let mut c: usize = 0;
        while c < self.classes.len()
            invariant
                c <= self.classes@.len(),
                r@.len() == c,
                forall|k: int| 0 <= k < c ==> r@[k] == kind_covers(#[trigger] self.classes@[k].characters, start, end),
            decreases self.classes.len() - c,
        {
            let b = self.classes[c].characters.contains_interval(start, end);
            r.push(b);
            c = c + 1;
        }
        assert(r@ =~= membership_of(self.classes@, (start, end)));
        r
    }
}


/// The classes of the sequence with their characters only.
pub open spec fn same_characters(a: Seq<CharacterClass>, b: Seq<CharacterClass>) -> bool {
    a.len() == b.len() && forall|c: int| 0 <= c < a.len() ==> (#[trigger] a[c]).characters == b[c].characters
}

/// What the class lists of disjoint groups hold after `g` groups: the groups
/// added to a class's own list, in increasing order where the list was empty.
pub open spec fn class_groups_ok(now: Seq<CharacterClass>, orig: Seq<CharacterClass>, fs: Seq<Seq<bool>>) -> bool {
    forall|c: int| 0 <= c < now.len() ==> {
        &&& (#[trigger] now[c]).intervals@.to_set() == orig[c].intervals@.to_set().union(
            groups_of_class(fs, c, fs.len() as int).to_set())
        &&& orig[c].intervals@.len() == 0 ==> now[c].intervals@ == groups_of_class(fs, c, fs.len() as int)
    }
}

/// `after` is the split of the classes `orig` into disjoint classes: the
/// elementary intervals of the classes, in increasing order and pairwise
/// disjoint; one group per distinct membership (the classes that hold an
/// interval), in order of first appearance, holding the intervals of that
/// membership; the classes with their characters, each given the groups it
/// holds.
pub open spec fn disjoint_split(orig: Seq<CharacterClass>, after: CharacterClasses) -> bool {
    let e = elementary_intervals_of(orig);
    let mems = memberships_of(orig, e);
    let fs = first_memberships(mems, e.len() as int);
    &&& after.elementary_intervals@ == e
    &&& disjoint_increasing(e)
    &&& after.intervals@.len() == fs.len()
    &&& forall|j: int| 0 <= j < fs.len() ==>
        (#[trigger] after.intervals@[j])@ == members_upto(e, mems, fs[j], e.len() as int)
    &&& same_characters(after.classes@, orig)
    &&& class_groups_ok(after.classes@, orig, fs)
}

proof fn lemma_members_only(ivs: Seq<(char, char)>, mems: Seq<Seq<bool>>, m: Seq<bool>, k: int, x: (char, char))
    requires
        0 <= k <= mems.len(),
        k <= ivs.len(),
        members_upto(ivs, mems, m, k).contains(x),
    ensures
        exists|i: int| 0 <= i < k && ivs[i] == x && mems[i] == m,
    decreases k,
{
    let prev = members_upto(ivs, mems, m, k - 1);
    if prev.contains(x) {
        lemma_members_only(ivs, mems, m, k - 1, x);
    } else {
        let t = choose|t: int| 0 <= t < members_upto(ivs, mems, m, k).len() && members_upto(ivs, mems, m, k)[t] == x;
        if mems[k - 1] == m {
            if t < prev.len() {
                assert(prev[t] == x);
            }
        }
    }
}

/// The split into disjoint classes partitions the elementary intervals and
/// covers each class exactly: every elementary interval lies in exactly one
/// disjoint class, and an elementary interval lies in one of the disjoint
/// classes listed for a class that had none before exactly when that class
/// holds every character of the interval.
pub proof fn law_disjoint_split(orig: Seq<CharacterClass>, after: CharacterClasses)
    requires
        disjoint_split(orig, after),
    ensures
        forall|t: int| 0 <= t < after.elementary_intervals@.len() ==> exists|j: int|
            0 <= j < after.intervals@.len() && (#[trigger] after.intervals@[j])@.contains(#[trigger] after.elementary_intervals@[t]),
        forall|t: int, j1: int, j2: int| 0 <= t < after.elementary_intervals@.len()
            && 0 <= j1 < after.intervals@.len() && 0 <= j2 < after.intervals@.len()
            && #[trigger] after.intervals@[j1]@.contains(after.elementary_intervals@[t])
            && #[trigger] after.intervals@[j2]@.contains(after.elementary_intervals@[t]) ==> j1 == j2,
        forall|c: int, t: int| #![trigger orig[c], after.elementary_intervals@[t]]
            0 <= c < orig.len() && orig[c].intervals@.len() == 0 && 0 <= t < after.elementary_intervals@.len() ==> (
            (exists|q: int| 0 <= q < after.classes@[c].intervals@.len()
                && (#[trigger] after.intervals@[after.classes@[c].intervals@[q] as int])@.contains(after.elementary_intervals@[t]))
            <==> kind_covers(orig[c].characters, after.elementary_intervals@[t].0, after.elementary_intervals@[t].1)),
{
    let e = elementary_intervals_of(orig);
    let mems = memberships_of(orig, e);
    let n = e.len() as int;
    let fs = first_memberships(mems, n);
    lemma_first_memberships_contains(mems, n);
    assert forall|t: int, j: int| 0 <= t < n && 0 <= j < fs.len() && #[trigger] after.intervals@[j]@.contains(e[t])
        implies fs[j] == mems[t] by {
        lemma_members_only(e, mems, fs[j], n, e[t]);
        let i = choose|i: int| 0 <= i < n && e[i] == e[t] && mems[i] == fs[j];
        if i < t {
            assert(e[i].1 < e[t].0);
        } else if t < i {
            assert(e[t].1 < e[i].0);
        }
    }
    assert forall|t: int| 0 <= t < n implies exists|j: int| 0 <= j < fs.len() && fs[j] == mems[t]
        && (#[trigger] after.intervals@[j])@.contains(#[trigger] e[t]) by {
        assert(fs.contains(mems[t]));
        let j = choose|j: int| 0 <= j < fs.len() && fs[j] == mems[t];
        lemma_members_contains(e, mems, t, n);
        assert(after.intervals@[j]@ == members_upto(e, mems, fs[j], n));
    }
    assert forall|t: int, j1: int, j2: int| 0 <= t < n && 0 <= j1 < fs.len() && 0 <= j2 < fs.len()
        && #[trigger] after.intervals@[j1]@.contains(e[t]) && #[trigger] after.intervals@[j2]@.contains(e[t])
        implies j1 == j2 by {
        assert(fs[j1] == mems[t] && fs[j2] == mems[t]);
    }
    assert forall|c: int, t: int| #![trigger orig[c], e[t]] 0 <= c < orig.len() && orig[c].intervals@.len() == 0 && 0 <= t < n implies (
        (exists|q: int| 0 <= q < after.classes@[c].intervals@.len()
            && (#[trigger] after.intervals@[after.classes@[c].intervals@[q] as int])@.contains(e[t]))
        <==> kind_covers(orig[c].characters, e[t].0, e[t].1)) by {
        let list = after.classes@[c].intervals@;
        assert(fs.len() == after.intervals.len());
        lemma_groups_of_class_contains(fs, c, fs.len() as int);
        assert(list == groups_of_class(fs, c, fs.len() as int));
        assert(mems[t] == membership_of(orig, e[t]));
        assert(mems[t][c] == kind_covers(orig[c].characters, e[t].0, e[t].1));
        if exists|q: int| 0 <= q < list.len() && (#[trigger] after.intervals@[list[q] as int])@.contains(e[t]) {
            let q = choose|q: int| 0 <= q < list.len() && (#[trigger] after.intervals@[list[q] as int])@.contains(e[t]);
            assert(list.contains(list[q]));
            assert(fs[list[q] as int] == mems[t]);
        }
        if kind_covers(orig[c].characters, e[t].0, e[t].1) {
            let j = choose|j: int| 0 <= j < fs.len() && fs[j] == mems[t] && (#[trigger] after.intervals@[j])@.contains(e[t]);
            assert(groups_of_class(fs, c, fs.len() as int).contains(j as usize));
            let q = choose|q: int| 0 <= q < list.len() && list[q] == j as usize;
            assert(after.intervals@[list[q] as int]@.contains(e[t]));
        }
    }
}

impl CharacterClasses {
    /// Splits the classes into elementary intervals, groups the intervals that
    /// belong to exactly the same classes, and gives each class the indices of
    /// the groups it holds.
    #[verifier::rlimit(40)]
    pub fn create_disjoint_character_classes(&mut self)
        ensures
            disjoint_split(old(self).classes@, *final(self)),
            final(self).groups_complete(),
            (forall|c: int| 0 <= c < old(self).classes@.len() ==> (#[trigger] old(self).classes@[c]).intervals@.len() == 0)
                ==> final(self).class_indices_valid(),
    {
        let ghost orig = self.classes@;
        let bounds = self.collect_boundaries();
        proof {
            assert(strictly_increasing(bounds@) && forall|b: u32| bounds@.contains(b) <==> is_boundary(orig, b));
            let sb = sorted_boundaries(orig);
            lemma_increasing_unique(bounds@, sb);
        }
        let elementary = self.elementary_from_bounds(&bounds);
        let ghost e = elementary@;
        let ghost mems = memberships_of(orig, e);
        let mut groups: Vec<Vec<(char, char)>> = Vec::new();
        let mut group_mems: Vec<Vec<bool>> = Vec::new();
        let mut k: usize = 0;
        proof {
            assert forall|c: int| 0 <= c < self.classes@.len() implies {
                &&& (#[trigger] self.classes@[c]).intervals@.to_set() == orig[c].intervals@.to_set().union(
                    groups_of_class(first_memberships(mems, 0), c, 0).to_set())
                &&& orig[c].intervals@.len() == 0 ==> self.classes@[c].intervals@ == groups_of_class(first_memberships(mems, 0), c, 0)
            } by {
                assert(orig[c].intervals@.to_set().union(Seq::<usize>::empty().to_set()) =~= orig[c].intervals@.to_set());
                if orig[c].intervals@.len() == 0 {
                    assert(orig[c].intervals@ =~= Seq::<usize>::empty());
                }
            }
        }
        while k < elementary.len()
            invariant
                k <= e.len(),
                e == elementary@,
                mems == memberships_of(orig, e),
                same_characters(self.classes@, orig),
                group_mems@.len() == groups@.len(),
                group_mems@.len() == first_memberships(mems, k as int).len(),
                forall|j: int| 0 <= j < group_mems@.len() ==> (#[trigger] group_mems@[j])@ == first_memberships(mems, k as int)[j],
                forall|j: int| 0 <= j < groups@.len() ==> (#[trigger] groups@[j])@ == members_upto(e, mems, first_memberships(mems, k as int)[j], k as int),
                class_groups_ok(self.classes@, orig, first_memberships(mems, k as int)),
            decreases elementary.len() - k,
        {
            let iv = elementary[k];
            let m = self.membership(iv.0, iv.1);
            let ghost fk = first_memberships(mems, k as int);
            let ghost fk1 = first_memberships(mems, k + 1);
            proof {
                assert(m@ =~= mems[k as int]);
                lemma_first_memberships_contains(mems, k as int);
                lemma_first_memberships_contains(mems, k + 1);
            }
            let mut j: usize = 0;
            let mut found = false;
            while j < group_mems.len()
                invariant_except_break
                    !found,
                invariant
                    j <= group_mems@.len(),
                    forall|t: int| 0 <= t < j ==> (#[trigger] group_mems@[t])@ != m@,
                ensures
                    found ==> j < group_mems@.len() && group_mems@[j as int]@ == m@,
                    !found ==> j == group_mems@.len(),
                decreases group_mems.len() - j,
            {
                if same_bools(&group_mems[j], &m) {
                    found = true;
                    assert(group_mems@[j as int]@ == m@);
                    break;
                }
                j = j + 1;
            }
            if found {
                proof {
                    assert(group_mems@[j as int]@ == fk[j as int]);
                    assert(fk[j as int] == mems[k as int]);
                    assert(fk.contains(mems[k as int]));
                    assert(fk1 == fk);
                }
                groups[j].push(iv);
            } else {
                proof {
                    assert(!fk.contains(mems[k as int])) by {
                        if fk.contains(mems[k as int]) {
                            let t = choose|t: int| 0 <= t < fk.len() && fk[t] == mems[k as int];
                            assert(group_mems@[t]@ == fk[t]);
                            assert(group_mems@[t]@ == m@);
                        }
                    }
                    assert(fk1 == fk.push(mems[k as int]));
                    assert forall|i: int| 0 <= i < k implies mems[i] != mems[k as int] by {
                        assert(fk.contains(mems[i]));
                    }
                    lemma_members_absent(e, mems, mems[k as int], k as int);
                }
                let mut g: Vec<(char, char)> = Vec::new();
                g.push(iv);
                groups.push(g);
            }
            assert(j < groups@.len());
            assert(fk1[j as int] == mems[k as int]);
            proof {
                assert forall|t: int| 0 <= t < groups@.len() implies (#[trigger] groups@[t])@ == members_upto(e, mems, fk1[t], k + 1) by {
                    if t != j {
                        assert(fk1[t] != mems[k as int]);
                    }
                }
            }
            let ghost pre = self.classes@;
            let mut c: usize = 0;
            while c < self.classes.len()
                invariant
                    c <= self.classes@.len(),
                    self.classes@.len() == pre.len(),
                    m@ == mems[k as int],
                    m@.len() == pre.len(),
                    forall|t: int| 0 <= t < pre.len() ==> (#[trigger] self.classes@[t]).characters == pre[t].characters,
                    forall|t: int| c <= t < pre.len() ==> #[trigger] self.classes@[t] == pre[t],
                    forall|t: int| 0 <= t < c ==> {
                        &&& m@[t] ==> (#[trigger] self.classes@[t]).intervals@.to_set() == pre[t].intervals@.to_set().insert(j)
                        &&& m@[t] && pre[t].intervals@.contains(j) ==> self.classes@[t].intervals@ == pre[t].intervals@
                        &&& m@[t] && !pre[t].intervals@.contains(j) ==> self.classes@[t].intervals@ == pre[t].intervals@.push(j)
                        &&& !m@[t] ==> self.classes@[t].intervals@ == pre[t].intervals@
                    },
                decreases self.classes.len() - c,
            {
                if m[c] {
                    self.classes[c].add_disjoint_interval(j);
                }
                c = c + 1;
            }
            if !found {
                group_mems.push(m);
            }
            proof {
                assert forall|cc: int| 0 <= cc < self.classes@.len() implies {
                    &&& (#[trigger] self.classes@[cc]).intervals@.to_set() == orig[cc].intervals@.to_set().union(
                        groups_of_class(fk1, cc, fk1.len() as int).to_set())
                    &&& orig[cc].intervals@.len() == 0 ==> self.classes@[cc].intervals@ == groups_of_class(fk1, cc, fk1.len() as int)
                } by {
                    lemma_groups_of_class_contains(fk, cc, fk.len() as int);
                    lemma_groups_of_class_contains(fk1, cc, fk1.len() as int);
                    lemma_groups_of_class_prefix(fk, fk1, cc, fk.len() as int);
                    let old_g = groups_of_class(fk, cc, fk.len() as int);
                    let new_g = groups_of_class(fk1, cc, fk1.len() as int);
                    assert(pre[cc].intervals@.to_set() == orig[cc].intervals@.to_set().union(old_g.to_set()));
                    if found {
                        assert(new_g == old_g);
                        if m@[cc] {
                            assert(old_g.contains(j));
                            assert(old_g.to_set().contains(j));
                            assert(self.classes@[cc].intervals@.to_set() =~= pre[cc].intervals@.to_set());
                        }
                    } else {
                        if m@[cc] {
                            assert(new_g == old_g.push(j));
                            assert(!old_g.contains(j));
                            assert(new_g.to_set() =~= old_g.to_set().insert(j));
                            assert(self.classes@[cc].intervals@.to_set() =~= orig[cc].intervals@.to_set().union(new_g.to_set()));
                        } else {
                            assert(new_g == old_g);
                        }
                    }
                }
            }
            k = k + 1;
        }
        self.elementary_intervals = elementary;
        self.intervals = groups;
        proof {
            if bounds@.len() > 0 {
                lemma_elementary_increasing(bounds@, orig, bounds@.len() - 1);
            }
            let n = e.len() as int;
            let fs = first_memberships(mems, n);
            lemma_first_memberships_contains(mems, n);
            if forall|c: int| 0 <= c < orig.len() ==> (#[trigger] orig[c]).intervals@.len() == 0 {
                assert forall|c: int, j: int| 0 <= c < self.classes@.len() && 0 <= j < self.classes@[c].intervals@.len()
                    implies #[trigger] self.classes@[c].intervals@[j] < self.intervals@.len() by {
                    assert(orig[c].intervals@.len() == 0);
                    lemma_groups_of_class_contains(fs, c, fs.len() as int);
                    assert(self.classes@[c].intervals@ == groups_of_class(fs, c, fs.len() as int));
                    assert(groups_of_class(fs, c, fs.len() as int).contains(self.classes@[c].intervals@[j]));
                }
            }
            assert forall|t: int| 0 <= t < self.elementary_intervals@.len() implies self.in_some_group(#[trigger] self.elementary_intervals@[t]) by {
                assert(fs.contains(mems[t]));
                let j = choose|j: int| 0 <= j < fs.len() && fs[j] == mems[t];
                lemma_members_contains(e, mems, t, n);
                assert(self.intervals@[j]@ == members_upto(e, mems, fs[j], n));
                assert(self.intervals@[j]@.contains(e[t]));
            }
            assert forall|j: int| 0 <= j < first_memberships(mems, e.len() as int).len() implies
                (#[trigger] self.intervals@[j])@ == members_upto(e, mems, first_memberships(mems, e.len() as int)[j], e.len() as int) by {
                assert(self.intervals@[j] == groups@[j]);
            }
        }
    }
}


proof fn lemma_members_contains(ivs: Seq<(char, char)>, mems: Seq<Seq<bool>>, k: int, n: int)
    requires
        0 <= k < n <= mems.len(),
        n <= ivs.len(),
    ensures
        members_upto(ivs, mems, mems[k], n).contains(ivs[k]),
    decreases n,
{
    if n - 1 == k {
        let prev = members_upto(ivs, mems, mems[k], n - 1);
        assert(members_upto(ivs, mems, mems[k], n)[prev.len() as int] == ivs[k]);
    } else {
        lemma_members_contains(ivs, mems, k, n - 1);
        let prev = members_upto(ivs, mems, mems[k], n - 1);
        let t = choose|t: int| 0 <= t < prev.len() && prev[t] == ivs[k];
        assert(members_upto(ivs, mems, mems[k], n)[t] == ivs[k]);
    }
}

/// Intervals with `start <= end`, in increasing order and pairwise disjoint.
pub open spec fn disjoint_increasing(ivs: Seq<(char, char)>) -> bool {
    &&& forall|i: int| 0 <= i < ivs.len() ==> (#[trigger] ivs[i]).0 <= ivs[i].1
    &&& forall|i: int, j: int| 0 <= i < j < ivs.len() ==> (#[trigger] ivs[i]).1 < (#[trigger] ivs[j]).0
}

proof fn lemma_elementary_increasing(bounds: Seq<u32>, classes: Seq<CharacterClass>, k: int)
    requires
        strictly_increasing(bounds),
        forall|t: int| 0 <= t < bounds.len() ==> is_scalar(#[trigger] bounds[t]),
        0 <= k < bounds.len(),
    ensures
        disjoint_increasing(elementary_upto(bounds, classes, k)),
        forall|i: int| 0 <= i < elementary_upto(bounds, classes, k).len() ==>
            (#[trigger] elementary_upto(bounds, classes, k)[i]).1 < bounds[k],
    decreases k,
{
    if k > 0 {
        lemma_elementary_increasing(bounds, classes, k - 1);
        let prev = elementary_upto(bounds, classes, k - 1);
        let iv = candidate(bounds[k - 1], bounds[k]);
        assert(bounds[k - 1] < bounds[k]);
        assert(iv.0 as u32 == bounds[k - 1]);
        assert(iv.0 <= iv.1);
        assert((iv.1 as u32) < bounds[k]);
        assert forall|i: int| 0 <= i < prev.len() implies (#[trigger] prev[i]).1 < iv.0 by {
        }
    }
}

/// No class has been given its disjoint groups yet.
pub open spec fn fresh_classes(cc: CharacterClasses) -> bool {
    forall|c: int| 0 <= c < cc.classes@.len() ==> (#[trigger] cc.classes@[c]).intervals@.len() == 0
}

impl CharacterClasses {
    /// Every elementary interval lies in some group, and the elementary
    /// intervals are in increasing order and pairwise disjoint.
    pub open spec fn groups_complete(&self) -> bool {
        &&& disjoint_increasing(self.elementary_intervals@)
        &&& forall|k: int| 0 <= k < self.elementary_intervals@.len() ==> self.in_some_group(#[trigger] self.elementary_intervals@[k])
    }

    /// Whether some group holds the interval.
    pub open spec fn in_some_group(&self, iv: (char, char)) -> bool {
        exists|j: int| 0 <= j < self.intervals@.len() && (#[trigger] self.intervals@[j])@.contains(iv)
    }

    /// The index of the first group that holds the interval.
    pub open spec fn group_of(&self, iv: (char, char)) -> int {
        choose|j: int| 0 <= j < self.intervals@.len() && self.intervals@[j]@.contains(iv)
            && forall|t: int| 0 <= t < j ==> !(#[trigger] self.intervals@[t])@.contains(iv)
    }
}


/// Where one of the first `n` groups holds `iv`, there is a first one.
proof fn lemma_first_group_exists(cc: CharacterClasses, iv: (char, char), n: int)
    requires
        0 <= n <= cc.intervals@.len(),
        exists|j: int| 0 <= j < n && (#[trigger] cc.intervals@[j])@.contains(iv),
    ensures
        exists|j: int| 0 <= j < cc.intervals@.len() && cc.intervals@[j]@.contains(iv)
            && forall|t: int| 0 <= t < j ==> !(#[trigger] cc.intervals@[t])@.contains(iv),
    decreases n,
{
    if exists|j: int| 0 <= j < n - 1 && (#[trigger] cc.intervals@[j])@.contains(iv) {
        lemma_first_group_exists(cc, iv, n - 1);
    } else {
        assert(cc.intervals@[n - 1]@.contains(iv));
    }
}

/// The first group that holds an interval is a group that holds it.
pub proof fn lemma_group_of_in_range(cc: CharacterClasses, iv: (char, char))
    requires
        cc.in_some_group(iv),
    ensures
        0 <= cc.group_of(iv) < cc.intervals@.len(),
        cc.intervals@[cc.group_of(iv)]@.contains(iv),
{
    lemma_first_group_exists(cc, iv, cc.intervals@.len() as int);
}

impl CharacterClasses {
    /// The index of the first group that holds `iv`, if any.
    fn find_group(&self, iv: (char, char)) -> (r: Option<usize>)
        ensures
            r is Some <==> self.in_some_group(iv),
            r matches Some(j) ==> j == self.group_of(iv),
    {
        let mut j: usize = 0;
        while j < self.intervals.len()
            invariant
                j <= self.intervals@.len(),
                forall|t: int| 0 <= t < j ==> !(#[trigger] self.intervals@[t])@.contains(iv),
            decreases self.intervals.len() - j,
        {
            let group = &self.intervals[j];
            let mut t: usize = 0;
            while t < group.len()
                invariant
                    t <= group@.len(),
                    j < self.intervals@.len(),
                    group@ == self.intervals@[j as int]@,
                    forall|u: int| 0 <= u < t ==> group@[u] != iv,
                    forall|u: int| 0 <= u < j ==> !(#[trigger] self.intervals@[u])@.contains(iv),
                decreases group.len() - t,
            {
                if group[t].0 == iv.0 && group[t].1 == iv.1 {
                    assert(group@[t as int] == iv);
                    assert(self.intervals@[j as int]@.contains(iv));
                    let ghost g = self.group_of(iv);
                    assert(g == j) by {
                        if g < j {
                            assert(!self.intervals@[g]@.contains(iv));
                        } else if g > j {
                            assert(!self.intervals@[j as int]@.contains(iv));
                        }
                    }
                    return Some(j);
                }
                t = t + 1;
            }
            j = j + 1;
        }
        assert(!self.in_some_group(iv));
        None
    }

    /// The table of the elementary intervals, each mapped to the index of the
    /// group that holds it: what a scanner uses to classify characters.
    pub fn class_table(&self) -> (t: CharClassTable)
        requires
            self.groups_complete(),
        ensures
            t.wf(),
            t.intervals@.len() == self.elementary_intervals@.len(),
            forall|k: int| 0 <= k < t.intervals@.len() ==> {
                &&& (#[trigger] t.intervals@[k]).0 == self.elementary_intervals@[k].0
                &&& t.intervals@[k].1 == self.elementary_intervals@[k].1
                &&& t.intervals@[k].2 == self.group_of(self.elementary_intervals@[k])
            },
    {
        let mut out: Vec<(char, char, usize)> = Vec::new();
        let mut k: usize = 0;
        while k < self.elementary_intervals.len()
            invariant
                k <= self.elementary_intervals@.len(),
                self.groups_complete(),
                out@.len() == k,
                forall|u: int| 0 <= u < k ==> {
                    &&& (#[trigger] out@[u]).0 == self.elementary_intervals@[u].0
                    &&& out@[u].1 == self.elementary_intervals@[u].1
                    &&& out@[u].2 == self.group_of(self.elementary_intervals@[u])
                },
            decreases self.elementary_intervals.len() - k,
        {
            let iv = self.elementary_intervals[k];
            assert(self.in_some_group(self.elementary_intervals@[k as int]));
            let j = match self.find_group(iv) {
                Some(j) => j,
                None => {
                    assert(false);
                    0
                },
            };
            out.push((iv.0, iv.1, j));
            k = k + 1;
        }
        let t = CharClassTable::new(out);
        proof {
            let e = self.elementary_intervals@;
            assert forall|i: int, j: int| 0 <= i < j < t.intervals@.len() implies (#[trigger] t.intervals@[i]).1 < (#[trigger] t.intervals@[j]).0 by {
                assert(e[i].1 < e[j].0);
            }
            assert forall|i: int| 0 <= i < t.intervals@.len() implies (#[trigger] t.intervals@[i]).0 <= t.intervals@[i].1 by {
                assert(e[i].0 <= e[i].1);
            }
        }
        t
    }

    /// The indices of the groups of the first class with the given characters;
    /// empty if there is none.
    pub fn get_disjoint_classes(&self, kind: &CharacterClassKind) -> (r: Vec<usize>)
        ensures
            r@ == self.disjoint_classes_of(*kind),
    {
        let mut i: usize = 0;
        while i < self.classes.len()
            invariant
                i <= self.classes@.len(),
                forall|t: int| 0 <= t < i ==> !kind_eq(#[trigger] self.classes@[t].characters, *kind),
            decreases self.classes.len() - i,
        {
            if self.classes[i].characters.same_as(kind) {
                let src = &self.classes[i].intervals;
                let mut r: Vec<usize> = Vec::new();
                let mut t: usize = 0;
                while t < src.len()
                    invariant
                        t <= src@.len(),
                        r@ == src@.take(t as int),
                    decreases src.len() - t,
                {
                    r.push(src[t]);
                    t = t + 1;
                }
                assert(r@ =~= src@);
                assert(self.first_class_of(*kind) == i);
                return r;
            }
            i = i + 1;
        }
        Vec::new()
    }

    /// The group indices of the first class with the given characters; empty
    /// if there is none.
    pub open spec fn disjoint_classes_of(&self, kind: CharacterClassKind) -> Seq<usize> {
        if exists|i: int| 0 <= i < self.classes@.len() && kind_eq(#[trigger] self.classes@[i].characters, kind) {
            self.classes@[self.first_class_of(kind)].intervals@
        } else {
            Seq::empty()
        }
    }

    /// Every group index of every class is the index of a group.
    pub open spec fn class_indices_valid(&self) -> bool {
        forall|c: int, j: int| 0 <= c < self.classes@.len() && 0 <= j < self.classes@[c].intervals@.len()
            ==> #[trigger] self.classes@[c].intervals@[j] < self.intervals@.len()
    }

    /// The index of the first class with the given characters.
    pub open spec fn first_class_of(&self, kind: CharacterClassKind) -> int {
        choose|i: int| 0 <= i < self.classes@.len() && kind_eq(self.classes@[i].characters, kind)
            && forall|t: int| 0 <= t < i ==> !kind_eq(#[trigger] self.classes@[t].characters, kind)
    }
}


/// The character that a literal's bytes begin with: the first character of
/// the text where the bytes are valid UTF-8, else the first byte as a
/// character.
pub open spec fn literal_char(bytes: Seq<u8>) -> Option<char> {
    if vstd::utf8::valid_utf8(bytes) {
        let text = vstd::utf8::decode_utf8(bytes);
        if text.len() > 0 {
            Some(text[0])
        } else {
            None
        }
    } else if bytes.len() > 0 {
        Some((bytes[0] as u32) as char)
    } else {
        None
    }
}

/// The character that a literal's bytes begin with (see `literal_char`).
pub fn literal_to_char(bytes: &[u8]) -> (r: Option<char>)
    ensures
        r == literal_char(bytes@),
{
    match utf8_to_string(bytes) {
        Some(text) => {
            let chars = str_to_chars(text.as_str());
            if chars.len() > 0 {
                Some(chars[0])
            } else {
                None
            }
        },
        None => {
            if bytes.len() > 0 {
                let b: u8 = bytes[0];
                match char_from_u32(b as u32) {
                    Some(c) => {
                        proof {
                            vstd::utf8::char_u32_cast(c, b as u32);
                        }
                        Some(c)
                    },
                    None => {
                        assert(false);
                        None
                    },
                }
            } else {
                proof {
                    assert(bytes@ =~= Seq::<u8>::empty());
                    assert(vstd::utf8::valid_utf8(bytes@)) by {
                        reveal_with_fuel(vstd::utf8::valid_utf8, 1);
                    }
                }
                None
            }
        },
    }
}


/// Where some class has the given characters, there is a first one.
pub proof fn lemma_first_class_exists(cc: CharacterClasses, kind: CharacterClassKind, i: int)
    requires
        0 <= i < cc.classes@.len(),
        kind_eq(cc.classes@[i].characters, kind),
    ensures
        0 <= cc.first_class_of(kind) < cc.classes@.len(),
        kind_eq(cc.classes@[cc.first_class_of(kind)].characters, kind),
    decreases i,
{
    if exists|t: int| 0 <= t < i && kind_eq(#[trigger] cc.classes@[t].characters, kind) {
        let t = choose|t: int| 0 <= t < i && kind_eq(#[trigger] cc.classes@[t].characters, kind);
        lemma_first_class_exists(cc, kind, t);
    } else {
        assert(0 <= i < cc.classes@.len() && kind_eq(cc.classes@[i].characters, kind)
            && forall|t: int| 0 <= t < i ==> !kind_eq(#[trigger] cc.classes@[t].characters, kind));
    }
}

} // verus!
