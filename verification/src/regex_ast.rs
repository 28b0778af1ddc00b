//! Regular expressions as parsed by `regex_syntax`, brought into a syntax
//! tree of this library.
use vstd::prelude::*;
use regex_syntax::hir::{Class, Hir, HirKind};
use regex_syntax::hir::HirKind::{Alternation, Capture, Concat, Empty, Literal, Look, Repetition};
use vstd::string::StringExecFns;

verus! {

#[verifier::external_type_specification]
#[verifier::external_body]
pub struct ExHir(Hir);

/// A regular expression: the high-level syntax of `regex_syntax`, with the
/// ranges of character classes as pairs of characters.
pub enum RegexAst {
    /// Matches the empty string.
    Empty,
    /// A look-around assertion, by name; not supported by the scanner.
    Look(String),
    /// A literal: the UTF-8 bytes of a string.
    Literal(Vec<u8>),
    /// A character class, as sorted ranges `start..=end`.
    Class(Vec<(char, char)>),
    /// A repetition of at least `min` and at most `max` (if any) times.
    Repetition { min: u32, max: Option<u32>, greedy: bool, sub: Box<RegexAst> },
    /// A capturing group.
    Capture(Box<RegexAst>),
    /// A concatenation.
    Concat(Vec<RegexAst>),
    /// An alternation.
    Alternation(Vec<RegexAst>),
}

/// What `regex_syntax::parse` says of a pattern: `None` where it parses the
/// pattern, else the text of its error. Both are functions of the pattern
/// alone.
pub uninterp spec fn regex_syntax_error(pattern: Seq<char>) -> Option<Seq<char>>;

/// The expression `regex_syntax::parse` gives for a pattern it accepts, as a
/// syntax tree of this library: a function of the pattern alone.
pub uninterp spec fn regex_tree(pattern: Seq<char>) -> RegexAst;

/// The ranges of a character class expression (`ClassUnicode::ranges`, or
/// `ClassBytes::ranges` with bytes taken as the characters of the same
/// value); empty for an expression that is not a class.
#[verifier::external_body]
fn hir_class_ranges(h: &Hir) -> (r: Vec<(char, char)>) {
    match h.kind() {
        HirKind::Class(Class::Unicode(c)) => c.ranges().iter().map(|r| (r.start(), r.end())).collect(),
        HirKind::Class(Class::Bytes(c)) => c.ranges().iter().map(|r| (r.start() as char, r.end() as char)).collect(),
        _ => Vec::new(),
    }
}

/// The parsed expression as a syntax tree, level by level (`Hir::kind`; a
/// look-around by its debug name, a class by `hir_class_ranges`).
#[verifier::external_body]
fn tree_of_hir(h: &Hir) -> RegexAst {
    match h.kind() {
        Empty => RegexAst::Empty,
        Look(l) => RegexAst::Look(format!("{l:?}")),
        Literal(l) => RegexAst::Literal(l.0.to_vec()),
        HirKind::Class(_) => RegexAst::Class(hir_class_ranges(h)),
        Repetition(r) => RegexAst::Repetition { min: r.min, max: r.max, greedy: r.greedy, sub: Box::new(tree_of_hir(&r.sub)) },
        Capture(c) => RegexAst::Capture(Box::new(tree_of_hir(&c.sub))),
        Concat(v) => RegexAst::Concat(v.iter().map(tree_of_hir).collect()),
        Alternation(v) => RegexAst::Alternation(v.iter().map(tree_of_hir).collect()),
    }
}

/// Parses `pattern` with `regex_syntax::parse` and converts the expression
/// into a syntax tree one level for one. The contract claims that it
/// succeeds exactly where the parser accepts the pattern, that the tree is
/// what `regex_tree` names, and that an error carries the parser's message.
#[verifier::external_body]
fn parse_tree(pattern: &str) -> (r: Result<RegexAst, String>)
    ensures
        match r {
            Ok(t) => regex_syntax_error(pattern@) is None && t == regex_tree(pattern@),
            Err(e) => regex_syntax_error(pattern@) == Some(e@),
        },
{
    match regex_syntax::parse(pattern) {
        Ok(h) => Ok(tree_of_hir(&h)),
        Err(e) => Err(e.to_string()),
    }
}

/// Parses a regular expression into a syntax tree: the tree of the pattern
/// where `regex_syntax` accepts it, else the parser's message.
pub fn parse_regex(pattern: &str) -> (r: Result<RegexAst, String>)
    ensures
        match r {
            Ok(t) => regex_syntax_error(pattern@) is None && t == regex_tree(pattern@),
            Err(e) => regex_syntax_error(pattern@) == Some(e@),
        },
{
    parse_tree(pattern)
}

/// Whether `c` has a special meaning in a regular expression
/// (`regex_syntax::is_meta_character`).
pub open spec fn is_meta_character(c: char) -> bool {
    c == '\\' || c == '.' || c == '+' || c == '*' || c == '?' || c == '(' || c == ')' || c == '|'
        || c == '[' || c == ']' || c == '{' || c == '}' || c == '^' || c == '$' || c == '#' || c
        == '&' || c == '-' || c == '~'
}

/// `text` with a backslash before every meta character.
pub open spec fn escaped(text: Seq<char>) -> Seq<char>
    decreases text.len(),
{
    if text.len() == 0 {
        Seq::empty()
    } else {
        let c = text.last();
        escaped(text.drop_last()) + if is_meta_character(c) {
            seq!['\\', c]
        } else {
            seq![c]
        }
    }
}

/// Whether `c` has a special meaning in a regular expression.
fn meta_character(c: char) -> (r: bool)
    ensures
        r == is_meta_character(c),
{
    c == '\\' || c == '.' || c == '+' || c == '*' || c == '?' || c == '(' || c == ')' || c == '|'
        || c == '[' || c == ']' || c == '{' || c == '}' || c == '^' || c == '$' || c == '#' || c
        == '&' || c == '-' || c == '~'
}

/// Escapes all regular expression meta characters in `text`: a backslash
/// goes before each of them.
pub(crate) fn escape(text: &str) -> (r: String)
    ensures
        r@ == escaped(text@),
{
    let chars = crate::text::str_to_chars(text);
    let mut out: Vec<char> = Vec::new();
    let mut i: usize = 0;
    while i < chars.len()
        invariant
            i <= chars@.len(),
            out@ == escaped(chars@.take(i as int)),
        decreases chars.len() - i,
    {
        let c = chars[i];
        if meta_character(c) {
            out.push('\\');
        }
        out.push(c);
        proof {
            let t = chars@.take(i + 1);
            assert(t.drop_last() =~= chars@.take(i as int));
            assert(t.last() == c);
        }
        i = i + 1;
        assert(out@ =~= escaped(chars@.take(i as int)));
    }
    assert(chars@.take(chars@.len() as int) =~= chars@);
    crate::text::chars_to_string(out.as_slice())
}

} // verus!
