//! A scanner built at run time from the text of its description.
use vstd::prelude::*;
use vstd::string::StringExecFns;
use crate::class_table::CharClassTable;
use crate::dsl::{description_read, parse_scanner_data_tokens, simple_description};
use crate::generate::{build_scanner, scanner_builds, scanner_of, GeneratedScanner};
use crate::tokens::{lex, token_views, DslToken, TokenView};
use crate::scanner_data::ScannerData;
use crate::match_types::Match;
use crate::find_matches::{scan_leaves, scans_as, scans_with_positions_as};
use crate::scanner_impl::{modes_wf, ScannerImpl};
use crate::text::byte_len;

verus! {

/// A scanner: its modes, current mode, mode stack and runtime state, and the
/// classification of characters its DFAs run on.
pub struct Scanner {
    pub scanner_impl: ScannerImpl,
    pub class_table: CharClassTable,
}

impl Scanner {
    pub open spec fn wf(&self) -> bool {
        &&& self.scanner_impl.wf()
        &&& self.class_table.wf()
    }

    /// The scanner of a generated scanner: mode 0, an empty mode stack and
    /// empty runtime-state slots.
    pub fn from_generated(g: GeneratedScanner) -> (s: Scanner)
        requires
            modes_wf(g.modes@),
            g.class_table.wf(),
        ensures
            s.wf(),
            s.scanner_impl.modes@ == g.modes@,
            s.scanner_impl.current_mode == 0,
            s.scanner_impl.mode_stack@.len() == 0,
            s.scanner_impl.dynamic_state@.len() == g.dynamic_state_len,
            s.class_table == g.class_table,
    {
        Scanner {
            scanner_impl: ScannerImpl::new_with_dynamic_state(g.modes, g.dynamic_state_len),
            class_table: g.class_table,
        }
    }

    /// Builds a scanner from the tokens of its description. Fails with the
    /// message of the parse where the tokens do not read as a description, and
    /// with that of the build where its scanner cannot be built.
    pub fn from_tokens(toks: &Vec<DslToken>) -> (r: Result<Scanner, String>)
        ensures
            r matches Ok(s) ==> s.wf() && s.scanner_impl.current_mode == 0 && s.scanner_impl.mode_stack@.len() == 0,
            r matches Ok(s) ==> exists|d: ScannerData, g: GeneratedScanner|
                #![trigger description_read(token_views(toks@), d, true), scanner_of(d, g)]
                description_read(token_views(toks@), d, true) && scanner_of(d, g)
                && s.scanner_impl.modes@ == g.modes@ && s.class_table == g.class_table
                && s.scanner_impl.dynamic_state@.len() == g.dynamic_state_len,
            r matches Err(e) ==> {
                ||| (exists|m: Seq<char>| e@ == "Failed to parse scanner definition: "@ + m)
                    && !simple_description(token_views(toks@), true)
                ||| (exists|m: Seq<char>| e@ == "Failed to build scanner modes: "@ + m)
                    && exists|d: ScannerData| #[trigger] description_read(token_views(toks@), d, true) && !scanner_builds(d)
            },
            simple_description(token_views(toks@), true)
                && (forall|d: ScannerData| #[trigger] description_read(token_views(toks@), d, true) ==> scanner_builds(d))
                ==> r is Ok,
    {
        let data = match parse_scanner_data_tokens(toks, true) {
            Ok(d) => d,
            Err(e) => {
                let mut msg = String::from_str("Failed to parse scanner definition: ");
                msg.append(e.as_str());
                return Err(msg);
            },
        };
        match build_scanner(&data) {
            Ok(g) => {
                let ghost gg = g;
                let s = Self::from_generated(g);
                assert(description_read(token_views(toks@), data, true) && scanner_of(data, gg));
                Ok(s)
            },
            Err(e) => {
                let mut msg = String::from_str("Failed to build scanner modes: ");
                msg.append(e.as_str());
                assert(description_read(token_views(toks@), data, true) && !scanner_builds(data));
                Err(msg)
            },
        }
    }

    /// Builds a scanner from the text of its description: the text is split
    /// into tokens by the Rust lexer and read by `from_tokens`. The lexer's
    /// tokens are not claimed to be a function of the text, so what is stated
    /// holds of whatever tokens it gave.
    pub fn new(definition: &str) -> (r: Result<Scanner, String>)
        ensures
            r matches Ok(s) ==> s.wf() && s.scanner_impl.current_mode == 0 && s.scanner_impl.mode_stack@.len() == 0,
            r matches Ok(s) ==> exists|tv: Seq<TokenView>, d: ScannerData, g: GeneratedScanner|
                #![trigger description_read(tv, d, true), scanner_of(d, g)]
                description_read(tv, d, true) && scanner_of(d, g)
                && s.scanner_impl.modes@ == g.modes@ && s.class_table == g.class_table
                && s.scanner_impl.dynamic_state@.len() == g.dynamic_state_len,
            r matches Err(e) ==> (exists|m: Seq<char>| e@ == "Failed to parse scanner definition: "@ + m)
                || (exists|m: Seq<char>| e@ == "Failed to build scanner modes: "@ + m),
            (r matches Err(e) && exists|m: Seq<char>| e@ == "Failed to build scanner modes: "@ + m)
                ==> exists|tv: Seq<TokenView>, d: ScannerData| #[trigger] description_read(tv, d, true) && !scanner_builds(d),
    {
        match lex(definition) {
            Some(toks) => {
                let r = Self::from_tokens(&toks);
                proof {
                    reveal_strlit("Failed to parse scanner definition: ");
                    reveal_strlit("Failed to build scanner modes: ");
                    if r is Err {
                        let e = r->Err_0;
                        if exists|m: Seq<char>| e@ == "Failed to parse scanner definition: "@ + m {
                            assert forall|m: Seq<char>| e@ != "Failed to build scanner modes: "@ + m by {
                                assert(e@[10] == 'p');
                                assert(("Failed to build scanner modes: "@ + m)[10] == 'b');
                            }
                        }
                    }
                }
                r
            },
            None => {
                let mut msg = String::from_str("Failed to parse scanner definition: ");
                msg.append("the scanner description does not lex");
                proof {
                    reveal_strlit("Failed to parse scanner definition: ");
                    reveal_strlit("Failed to build scanner modes: ");
                    assert forall|m: Seq<char>| msg@ != "Failed to build scanner modes: "@ + m by {
                        assert(msg@[10] == 'p');
                        assert(("Failed to build scanner modes: "@ + m)[10] == 'b');
                    }
                }
                Err(msg)
            },
        }
    }

    /// Clears the runtime state; modes, current mode and mode stack stay.
    pub fn reset_dynamic_state(&mut self)
        requires
            old(self).wf(),
        ensures
            final(self).wf(),
            final(self).scanner_impl.current_mode == old(self).scanner_impl.current_mode,
            final(self).scanner_impl.dynamic_state@.len() == old(self).scanner_impl.dynamic_state@.len(),
            forall|i: int| 0 <= i < final(self).scanner_impl.dynamic_state@.len() ==>
                (#[trigger] final(self).scanner_impl.dynamic_state@[i]) is None,
    {
        self.scanner_impl.reset_dynamic_state();
    }

    /// Scans `input` from byte `offset` and returns all matches, in order and
    /// without overlap; the scanner keeps its mode, mode stack and runtime
    /// state for the next scan.
    pub fn find_matches(&mut self, input: &str, offset: usize) -> (ms: Vec<Match>)
        requires
            old(self).wf(),
        ensures
            final(self).wf(),
            final(self).class_table == old(self).class_table,
            forall|i: int| 0 <= i < ms@.len() ==> (#[trigger] ms@[i]).span.start < ms@[i].span.end,
            forall|i: int, j: int| 0 <= i < j < ms@.len() ==> (#[trigger] ms@[i]).span.end <= (#[trigger] ms@[j]).span.start,
            forall|i: int| 0 <= i < ms@.len() ==> (#[trigger] ms@[i]).span.end <= byte_len(input@),
            scans_as(old(self).scanner_impl, old(self).class_table.intervals@, input@, offset, ms@),
            scan_leaves(old(self).scanner_impl, old(self).class_table.intervals@, input@, offset, final(self).scanner_impl),
    {
        let mut scanner = ScannerImpl::new(Vec::new());
        core::mem::swap(&mut scanner, &mut self.scanner_impl);
        let mut fm = ScannerImpl::find_matches(scanner, input, offset, &self.class_table);
        let ms = fm.collect_matches();
        self.scanner_impl = fm.scanner_impl;
        ms
    }

    /// Scans `input` from byte `offset` and returns all matches with their
    /// line and column positions.
    pub fn find_matches_with_position(&mut self, input: &str, offset: usize) -> (ms: Vec<Match>)
        requires
            old(self).wf(),
        ensures
            final(self).wf(),
            final(self).class_table == old(self).class_table,
            forall|i: int| 0 <= i < ms@.len() ==> (#[trigger] ms@[i]).positions is Some,
            scans_as(old(self).scanner_impl, old(self).class_table.intervals@, input@, offset, ms@),
            scans_with_positions_as(old(self).scanner_impl, old(self).class_table.intervals@, input@, offset, ms@),
            scan_leaves(old(self).scanner_impl, old(self).class_table.intervals@, input@, offset, final(self).scanner_impl),
    {
        let mut scanner = ScannerImpl::new(Vec::new());
        core::mem::swap(&mut scanner, &mut self.scanner_impl);
        let mut fm = ScannerImpl::find_matches_with_position(scanner, input, offset, &self.class_table);
        let ms = fm.collect_matches();
        self.scanner_impl = fm.inner.scanner_impl;
        ms
    }

    /// Returns the character class of `c`.
    pub fn match_function(&self, c: char) -> (r: Option<usize>)
        requires
            self.wf(),
        ensures
            r == self.class_table.spec_class_of(c),
    {
        self.class_table.match_function(c)
    }

    /// Returns the index of the current mode.
    pub fn current_mode_index(&self) -> (i: usize)
        ensures
            i == self.scanner_impl.current_mode,
    {
        self.scanner_impl.current_mode_index()
    }

    /// Returns the name of the mode with the given index, or "Unknown".
    pub fn mode_name(&self, index: usize) -> (r: Option<String>)
        ensures
            r matches Some(name) && name@ == (if (index as int) < self.scanner_impl.modes@.len() {
                self.scanner_impl.modes@[index as int].name@
            } else {
                "Unknown"@
            }),
    {
        self.scanner_impl.mode_name(index)
    }

    /// Returns the name of the current mode.
    pub fn current_mode_name(&self) -> (name: String)
        ensures
            name@ == (if (self.scanner_impl.current_mode as int) < self.scanner_impl.modes@.len() {
                self.scanner_impl.modes@[self.scanner_impl.current_mode as int].name@
            } else {
                "Unknown"@
            }),
    {
        self.scanner_impl.current_mode_name()
    }
}

} // verus!
