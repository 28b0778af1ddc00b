//! A scanner mode of the generator: its name, token patterns and mode
//! transitions by mode number.
use vstd::prelude::*;
use crate::pattern::Pattern;
use crate::scanner_data::TransitionToNumericMode;

verus! {

/// A scanner mode with its patterns in order of priority and its transitions
/// sorted by token type.
pub struct ScannerMode {
    pub name: String,
    pub patterns: Vec<Pattern>,
    pub transitions: Vec<TransitionToNumericMode>,
}

impl ScannerMode {
    /// A mode of the given name, patterns and transitions.
    pub fn new(name: &String, patterns: Vec<Pattern>, transitions: Vec<TransitionToNumericMode>) -> (m: ScannerMode)
        ensures
            m.name@ == name@,
            m.patterns == patterns,
            m.transitions == transitions,
    {
        ScannerMode { name: name.clone(), patterns, transitions }
    }
}

} // verus!
