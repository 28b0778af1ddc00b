//! Matches, their spans and their line/column positions.
use vstd::prelude::*;
use crate::dynamic::{decimal, push_decimal, push_str};
use crate::text::chars_to_string;

verus! {

/// A line and column in the input, both counted from 1.
pub struct Position {
    pub line: usize,
    pub column: usize,
}

impl Position {
    /// Creates a position from a line and a column.
    pub fn new(line: usize, column: usize) -> (p: Self)
        ensures
            p.line == line,
            p.column == column,
    {
        Position { line, column }
    }
}

/// The positions of the first character of a match and just after its last.
pub struct Positions {
    pub start: Position,
    pub end: Position,
}

impl Positions {
    /// Creates positions from a start and an end position.
    pub fn new(start: Position, end: Position) -> (p: Self)
        ensures
            p.start == start,
            p.end == end,
    {
        Positions { start, end }
    }
}

/// A token match in the input text: its byte span, its token type, and
/// optionally its line/column positions.
pub struct Match {
    pub span: core::ops::Range<usize>,
    pub token_type: usize,
    pub positions: Option<Positions>,
}

/// The text of a match: `[start..end] tok token_type`, followed by ` at ` and
/// its start and end positions as `line:column-line:column` where it has
/// them.
pub open spec fn match_text(m: Match) -> Seq<char> {
    "["@ + decimal(m.span.start as nat) + ".."@ + decimal(m.span.end as nat) + "] tok "@ + decimal(m.token_type as nat)
        + match m.positions {
        Some(p) => " at "@ + decimal(p.start.line as nat) + ":"@ + decimal(p.start.column as nat) + "-"@
            + decimal(p.end.line as nat) + ":"@ + decimal(p.end.column as nat),
        None => Seq::empty(),
    }
}

impl Match {
    /// The text of the match (see `match_text`).
    pub fn to_text(&self) -> (r: String)
        ensures
            r@ == match_text(*self),
    {
        let mut out: Vec<char> = Vec::new();
        push_str(&mut out, "[");
        push_decimal(&mut out, self.span.start);
        push_str(&mut out, "..");
        push_decimal(&mut out, self.span.end);
        push_str(&mut out, "] tok ");
        push_decimal(&mut out, self.token_type);
        let ghost head = out@;
        match &self.positions {
            Some(p) => {
                push_str(&mut out, " at ");
                push_decimal(&mut out, p.start.line);
                push_str(&mut out, ":");
                push_decimal(&mut out, p.start.column);
                push_str(&mut out, "-");
                push_decimal(&mut out, p.end.line);
                push_str(&mut out, ":");
                push_decimal(&mut out, p.end.column);
            },
            None => {
                assert(out@ =~= head + Seq::<char>::empty());
            },
        }
        chars_to_string(out.as_slice())
    }

    /// Creates a new `Match` from the given span and token type, without positions.
    pub fn new(span: core::ops::Range<usize>, token_type: usize) -> (m: Self)
        ensures
            m.span == span,
            m.token_type == token_type,
            m.positions is None,
    {
        Match { span, token_type, positions: None }
    }

    /// Consumes the match and returns it with the given positions.
    pub fn with_positions(self, positions: Option<Positions>) -> (m: Self)
        ensures
            m.span == self.span,
            m.token_type == self.token_type,
            m.positions == positions,
    {
        let mut me = self;
        me.positions = positions;
        me
    }
}

/// The start of a match: its byte index and optionally its position.
pub struct MatchStart {
    pub byte_index: usize,
    pub position: Option<Position>,
}

impl MatchStart {
    /// Creates a match start at the given byte index, without position.
    pub fn new(byte_index: usize) -> (m: Self)
        ensures
            m.byte_index == byte_index,
            m.position is None,
    {
        MatchStart { byte_index, position: None }
    }

    /// Sets the position of the match start.
    pub fn with_position(self, position: Option<Position>) -> (m: Self)
        ensures
            m.byte_index == self.byte_index,
            m.position == position,
    {
        let mut me = self;
        me.position = position;
        me
    }
}

/// The end of a match: its byte index, optional position, and the token type,
/// priority and specificity of the accept that ends it.
pub struct MatchEnd {
    pub byte_index: usize,
    pub position: Option<Position>,
    pub token_type: usize,
    pub priority: usize,
    pub specificity: usize,
}

impl MatchEnd {
    /// Creates a match end with the given byte index, token type, priority and specificity.
    pub fn new(byte_index: usize, token_type: usize, priority: usize, specificity: usize) -> (m: Self)
        ensures
            m.byte_index == byte_index,
            m.position is None,
            m.token_type == token_type,
            m.priority == priority,
            m.specificity == specificity,
    {
        MatchEnd { byte_index, position: None, token_type, priority, specificity }
    }

    /// Sets the position of the match end.
    pub fn with_position(self, position: Option<Position>) -> (m: Self)
        ensures
            m.byte_index == self.byte_index,
            m.token_type == self.token_type,
            m.priority == self.priority,
            m.specificity == self.specificity,
            m.position == position,
    {
        let mut me = self;
        me.position = position;
        me
    }
}

} // verus!
