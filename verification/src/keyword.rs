//! The keywords of the scanner description that more than one part of its
//! parser reads.
use vstd::prelude::*;

verus! {

/// A keyword of the scanner description.
#[derive(PartialEq, Eq, Structural, Clone, Copy)]
pub enum DslKeyword {
    Followed,
    Not,
    By,
    Capture,
    Validate,
}

/// The keyword an identifier spells, if any.
pub open spec fn keyword_of(s: Seq<char>) -> Option<DslKeyword> {
    if s == "followed"@ {
        Some(DslKeyword::Followed)
    } else if s == "not"@ {
        Some(DslKeyword::Not)
    } else if s == "by"@ {
        Some(DslKeyword::By)
    } else if s == "capture"@ {
        Some(DslKeyword::Capture)
    } else if s == "validate"@ {
        Some(DslKeyword::Validate)
    } else {
        None
    }
}

/// Whether two character sequences are equal.
pub fn same_text(a: &str, b: &str) -> (r: bool)
    ensures
        r == (a@ == b@),
{
    let x = crate::text::str_to_chars(a);
    let y = crate::text::str_to_chars(b);
    if x.len() != y.len() {
        return false;
    }
    let mut i: usize = 0;
    while i < x.len()
        invariant
            i <= x@.len(),
            x@.len() == y@.len(),
            x@ == a@,
            y@ == b@,
            forall|k: int| 0 <= k < i ==> x@[k] == y@[k],
        decreases x.len() - i,
    {
        if x[i] != y[i] {
            return false;
        }
        i = i + 1;
    }
    assert(x@ =~= y@);
    true
}

impl DslKeyword {
    /// The keyword an identifier spells, if any.
    pub fn from_ident(ident: &str) -> (r: Option<DslKeyword>)
        ensures
            r == keyword_of(ident@),
    {
        if same_text(ident, "followed") {
            Some(DslKeyword::Followed)
        } else if same_text(ident, "not") {
            Some(DslKeyword::Not)
        } else if same_text(ident, "by") {
            Some(DslKeyword::By)
        } else if same_text(ident, "capture") {
            Some(DslKeyword::Capture)
        } else if same_text(ident, "validate") {
            Some(DslKeyword::Validate)
        } else {
            None
        }
    }

    /// Whether the keyword begins a lookahead condition.
    pub fn starts_lookahead(self) -> (r: bool)
        ensures
            r == (self is Followed || self is Not),
    {
        match self {
            DslKeyword::Followed | DslKeyword::Not => true,
            _ => false,
        }
    }

    /// Whether the keyword begins a runtime-state operation.
    pub fn is_dynamic_op(self) -> (r: bool)
        ensures
            r == (self is Capture || self is Validate),
    {
        match self {
            DslKeyword::Capture | DslKeyword::Validate => true,
            _ => false,
        }
    }
}

} // verus!
