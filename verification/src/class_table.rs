//! The character classification a scanner uses: sorted, disjoint character
//! intervals, each mapped to the index of its disjoint character class.
use vstd::prelude::*;

verus! {

/// Sorted, disjoint intervals `(start, end, class)` of characters.
///
/// A character belongs to class `class` if it lies in `start..=end` of some
/// interval; characters outside every interval belong to no class.
pub struct CharClassTable {
    pub intervals: Vec<(char, char, usize)>,
}

/// The intervals are non-empty, sorted and pairwise disjoint.
pub open spec fn intervals_wf(iv: Seq<(char, char, usize)>) -> bool {
    &&& forall|i: int| 0 <= i < iv.len() ==> (#[trigger] iv[i]).0 <= iv[i].1
    &&& forall|i: int, j: int| 0 <= i < j < iv.len() ==> (#[trigger] iv[i]).1 < (#[trigger] iv[j]).0
}

/// Whether interval `i` contains `c`.
pub open spec fn interval_contains(iv: Seq<(char, char, usize)>, i: int, c: char) -> bool {
    0 <= i < iv.len() && iv[i].0 <= c && c <= iv[i].1
}

/// The class of `c`: that of the interval holding it, or `None`.
pub open spec fn class_of(iv: Seq<(char, char, usize)>, c: char) -> Option<usize> {
    if exists|i: int| interval_contains(iv, i, c) {
        Some(iv[choose|i: int| interval_contains(iv, i, c)].2)
    } else {
        None
    }
}

impl CharClassTable {
    pub open spec fn wf(&self) -> bool {
        intervals_wf(self.intervals@)
    }

    pub open spec fn spec_class_of(&self, c: char) -> Option<usize> {
        class_of(self.intervals@, c)
    }

    /// Creates a table from intervals `(start, end, class)`.
    pub fn new(intervals: Vec<(char, char, usize)>) -> (t: Self)
        ensures
            t.intervals@ == intervals@,
    {
        CharClassTable { intervals }
    }

    /// A copy of this table.
    pub fn clone_table(&self) -> (r: Self)
        ensures
            r.intervals@ == self.intervals@,
    {
        let mut intervals: Vec<(char, char, usize)> = Vec::new();
        let mut i: usize = 0;
        while i < self.intervals.len()
            invariant
                i <= self.intervals@.len(),
                intervals@ == self.intervals@.take(i as int),
            decreases self.intervals.len() - i,
        {
            intervals.push(self.intervals[i]);
            i = i + 1;
        }
        assert(intervals@ =~= self.intervals@);
        CharClassTable { intervals }
    }

    /// Returns the character class of `c` by binary search over the intervals.
    pub fn match_function(&self, c: char) -> (r: Option<usize>)
        requires
            self.wf(),
        ensures
            r == self.spec_class_of(c),
    {
        let iv = &self.intervals;
        let mut lo: usize = 0;
        let mut hi: usize = iv.len();
        while lo < hi
            invariant
                lo <= hi <= iv@.len(),
                iv@ == self.intervals@,
                intervals_wf(iv@),
                forall|i: int| 0 <= i < lo ==> (#[trigger] iv@[i]).1 < c,
                forall|i: int| hi <= i < iv@.len() ==> c < (#[trigger] iv@[i]).0,
            decreases hi - lo,
        {
            let mid = lo + (hi - lo) / 2;
            let (start, end, class) = iv[mid];
            if c < start {
                proof {
                    assert forall|i: int| mid <= i < iv@.len() implies c < (#[trigger] iv@[i]).0 by {
                        if i > mid {
                            assert(iv@[mid as int].1 < iv@[i].0);
                        }
                    }
                }
                hi = mid;
            } else if c > end {
                proof {
                    assert forall|i: int| 0 <= i <= mid implies (#[trigger] iv@[i]).1 < c by {
                        if i < mid {
                            assert(iv@[i].1 < iv@[mid as int].0);
                        }
                    }
                }
                lo = mid + 1;
            } else {
                assert(interval_contains(iv@, mid as int, c));
                proof {
                    let j = choose|j: int| interval_contains(iv@, j, c);
                    if j < mid {
                        assert(iv@[j].1 < iv@[mid as int].0);
                    } else if j > mid {
                        assert(iv@[mid as int].1 < iv@[j].0);
                    }
                    assert(j == mid);
                }
                return Some(class);
            }
        }
        assert forall|i: int| !interval_contains(iv@, i, c) by {
            if 0 <= i < iv@.len() {
                if i < lo {
                    assert(iv@[i].1 < c);
                } else {
                    assert(c < iv@[i].0);
                }
            }
        }
        None
    }
}

} // verus!
