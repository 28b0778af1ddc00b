//! The parser of scanner descriptions: the grammar of scanners, their state
//! declarations, modes, token patterns, lookahead conditions and
//! runtime-state operations, over the tokens of the description.
use vstd::prelude::*;
use vstd::string::StringExecFns;
use crate::dynamic::{
    ensure_no_capturing_groups, is_op_segment, joined_regex, op_count, CompileTimeConstraint, CompileTimeExpr, DynamicSegment, StateDeclaration,
    StateType, UnresolvedDynamicPattern,
};
use crate::pattern::{Lookahead, Pattern};
use crate::regex_ast::regex_syntax_error;
use crate::scanner_data::{ScannerData, ScannerModeWithNamedTransitions, TransitionToNamedMode};
use crate::keyword::{keyword_of, same_text, DslKeyword};
use crate::tokens::{
    int_digits, int_literal_digits, lex, string_literal_value, string_value, token_view, token_views,
    DslToken, TokenView,
};

verus! {

/// Whether `s` is a non-empty sequence of decimal digits.
pub open spec fn is_digit_seq(s: Seq<char>) -> bool {
    s.len() > 0 && forall|i: int| 0 <= i < s.len() ==> '0' <= #[trigger] s[i] <= '9'
}

/// The number that decimal digits spell.
pub open spec fn digits_value(s: Seq<char>) -> nat
    decreases s.len(),
{
    if s.len() == 0 {
        0
    } else {
        digits_value(s.drop_last()) * 10 + (s.last() as nat - '0' as nat) as nat
    }
}

/// The value of an integer literal, if the text is one.
pub open spec fn int_value(text: Seq<char>) -> Option<nat> {
    match int_literal_digits(text) {
        Some(d) => if is_digit_seq(d) { Some(digits_value(d)) } else { None },
        None => None,
    }
}

/// A prefix of decimal digits spells at most what the whole spells.
proof fn lemma_digits_prefix(s: Seq<char>, k: int)
    requires
        0 <= k <= s.len(),
        forall|i: int| 0 <= i < s.len() ==> '0' <= #[trigger] s[i] <= '9',
    ensures
        digits_value(s.take(k)) <= digits_value(s),
    decreases s.len() - k,
{
    if k < s.len() {
        lemma_digits_prefix(s, k + 1);
        assert(s.take(k + 1).drop_last() =~= s.take(k));
    } else {
        assert(s.take(k) =~= s);
    }
}

/// The value of an integer literal as a `usize`: an error where the text is
/// no integer literal or the value does not fit.
pub fn parse_usize_literal(text: &str) -> (r: Result<usize, String>)
    ensures
        r matches Ok(v) ==> int_value(text@) == Some(v as nat),
        r is Ok <==> (int_value(text@) matches Some(n) && n <= usize::MAX),
{
    let digits = match int_digits(text) {
        Some(d) => d,
        None => {
            return Err(String::from_str("expected integer literal"));
        },
    };
    let cs = crate::text::str_to_chars(digits.as_str());
    if cs.len() == 0 {
        return Err(String::from_str("expected integer literal"));
    }
    let mut k: usize = 0;
    while k < cs.len()
        invariant
            k <= cs@.len(),
            int_literal_digits(text@) == Some(cs@),
            forall|i: int| 0 <= i < k ==> '0' <= #[trigger] cs@[i] <= '9',
        decreases cs.len() - k,
    {
        if cs[k] < '0' || cs[k] > '9' {
            assert(!is_digit_seq(cs@));
            return Err(String::from_str("expected integer literal"));
        }
        k = k + 1;
    }
    assert(is_digit_seq(cs@));
    let mut value: usize = 0;
    let mut i: usize = 0;
    while i < cs.len()
        invariant
            i <= cs@.len(),
            is_digit_seq(cs@),
            int_literal_digits(text@) == Some(cs@),
            value as nat == digits_value(cs@.take(i as int)),
        decreases cs.len() - i,
    {
        let d = (cs[i] as u32 - '0' as u32) as usize;
        let ghost next = digits_value(cs@.take(i as int + 1));
        assert(cs@.take(i as int + 1).drop_last() =~= cs@.take(i as int));
        assert(cs@.take(i as int + 1).last() == cs@[i as int]);
        assert(next == value * 10 + d);
        proof {
            lemma_digits_prefix(cs@, i as int + 1);
            assert(int_value(text@) == Some(digits_value(cs@)));
        }
        match value.checked_mul(10) {
            Some(m) => match m.checked_add(d) {
                Some(v) => value = v,
                None => {
                    return Err(String::from_str("number too large to fit in target type"));
                },
            },
            None => {
                assert(next >= value * 10);
                return Err(String::from_str("number too large to fit in target type"));
            },
        }
        i = i + 1;
    }
    assert(cs@.take(cs@.len() as int) =~= cs@);
    Ok(value)
}

/// The identifier at `pos`, if the token there is one.
pub open spec fn ident_at(tv: Seq<TokenView>, pos: int) -> Option<Seq<char>> {
    if 0 <= pos < tv.len() {
        match tv[pos] {
            TokenView::Ident(s) => Some(s),
            _ => None,
        }
    } else {
        None
    }
}

/// The text of the literal at `pos`, if the token there is one.
pub open spec fn literal_at(tv: Seq<TokenView>, pos: int) -> Option<Seq<char>> {
    if 0 <= pos < tv.len() {
        match tv[pos] {
            TokenView::Literal(s) => Some(s),
            _ => None,
        }
    } else {
        None
    }
}

/// The punctuation character of a token, and whether it is joined to the
/// next, if the token is punctuation.
pub open spec fn punct_of(t: TokenView) -> Option<(char, bool)> {
    match t {
        TokenView::Punct(c, j) => Some((c, j)),
        _ => None,
    }
}

/// The delimiter and content tokens of the group at `pos`, if the token
/// there is a group.
pub open spec fn group_at(tv: Seq<TokenView>, pos: int) -> Option<(char, Seq<TokenView>)> {
    if 0 <= pos < tv.len() {
        match tv[pos] {
            TokenView::Group(d, text) => Some((d, text)),
            _ => None,
        }
    } else {
        None
    }
}

/// The tokens of the content of the group at `pos`, if the token there is a
/// group.
pub open spec fn group_content_at(tv: Seq<TokenView>, pos: int) -> Option<Seq<TokenView>> {
    match group_at(tv, pos) {
        Some((_, g)) => Some(g),
        None => None,
    }
}

/// Whether the token at `pos` is the punctuation character `c`.
pub open spec fn punct_at(tv: Seq<TokenView>, pos: int, c: char) -> bool {
    0 <= pos < tv.len() && punct_of(tv[pos]) is Some && (punct_of(tv[pos])->0).0 == c
}

/// Whether the tokens at `pos` are the punctuation `c1` joined to `c2`.
pub open spec fn punct2_at(tv: Seq<TokenView>, pos: int, c1: char, c2: char) -> bool {
    &&& 0 <= pos && pos + 1 < tv.len()
    &&& punct_of(tv[pos]) == Some((c1, true))
    &&& punct_at(tv, pos + 1, c2)
}

/// The identifier at `pos`, if the token there is one.
pub fn peek_ident(toks: &Vec<DslToken>, pos: usize) -> (r: Option<String>)
    ensures
        r is Some <==> ident_at(token_views(toks@), pos as int) is Some,
        r matches Some(s) ==> ident_at(token_views(toks@), pos as int) == Some(s@),
{
    if pos < toks.len() {
        match &toks[pos] {
            DslToken::Ident(s) => Some(s.clone()),
            _ => None,
        }
    } else {
        None
    }
}

/// The text of the literal at `pos`, if the token there is one.
pub fn peek_literal(toks: &Vec<DslToken>, pos: usize) -> (r: Option<String>)
    ensures
        r is Some <==> literal_at(token_views(toks@), pos as int) is Some,
        r matches Some(s) ==> literal_at(token_views(toks@), pos as int) == Some(s@),
{
    if pos < toks.len() {
        match &toks[pos] {
            DslToken::Literal(s) => Some(s.clone()),
            _ => None,
        }
    } else {
        None
    }
}

/// Whether the token at `pos` is the punctuation character `c`.
pub fn peek_punct(toks: &Vec<DslToken>, pos: usize, c: char) -> (r: bool)
    ensures
        r == punct_at(token_views(toks@), pos as int, c),
{
    if pos < toks.len() {
        match &toks[pos] {
            DslToken::Punct(d, _) => *d == c,
            _ => false,
        }
    } else {
        false
    }
}

/// Whether the tokens at `pos` are the punctuation `c1` joined to `c2`.
pub fn peek_punct2(toks: &Vec<DslToken>, pos: usize, c1: char, c2: char) -> (r: bool)
    ensures
        r == punct2_at(token_views(toks@), pos as int, c1, c2),
{
    if pos < toks.len() && toks.len() - pos >= 2 {
        let first = match &toks[pos] {
            DslToken::Punct(d, j) => *d == c1 && *j,
            _ => false,
        };
        let second = match &toks[pos + 1] {
            DslToken::Punct(e, _) => *e == c2,
            _ => false,
        };
        first && second
    } else {
        false
    }
}

/// The tokens of the group at `pos` with the opening delimiter `delim`.
pub fn group_tokens(toks: &Vec<DslToken>, pos: usize, delim: char) -> (r: Result<&Vec<DslToken>, String>)
    ensures
        r matches Ok(v) ==> group_at(token_views(toks@), pos as int) matches Some((d, g))
            && d == delim && g == token_views(v@),
        (group_at(token_views(toks@), pos as int) matches Some((d, _)) && d == delim) ==> r is Ok,
{
    if pos < toks.len() {
        match &toks[pos] {
            DslToken::Group(d, v) => {
                if *d == delim {
                    assert(token_views(v@) =~= token_views(toks@)[pos as int]->Group_1);
                    return Ok(v);
                }
            },
            _ => {},
        }
    }
    let mut msg = String::from_str("expected a group delimited by ");
    msg.append(if delim == '(' { "parentheses" } else if delim == '{' { "braces" } else { "brackets" });
    Err(msg)
}

/// The operand at `pos` of a constraint: an integer literal that fits, or `n`.
pub open spec fn primary_of(tv: Seq<TokenView>, pos: int) -> Option<CompileTimeExpr> {
    if literal_at(tv, pos) is Some && int_value(literal_at(tv, pos)->0) is Some {
        let n = int_value(literal_at(tv, pos)->0)->0;
        if n <= usize::MAX { Some(CompileTimeExpr::Lit(n as usize)) } else { None }
    } else if ident_at(tv, pos) == Some("n"@) {
        Some(CompileTimeExpr::State)
    } else {
        None
    }
}

/// Parses the operand of a constraint at `pos`: an integer literal, or `n`
/// for the stored count.
pub fn parse_primary_expr(toks: &Vec<DslToken>, pos: usize) -> (r: Result<(CompileTimeExpr, usize), String>)
    requires
        pos < usize::MAX,
    ensures
        r is Ok <==> primary_of(token_views(toks@), pos as int) is Some,
        r matches Ok((e, p)) ==> e == primary_of(token_views(toks@), pos as int)->0 && p == pos + 1,
{
    let ghost tv = token_views(toks@);
    match peek_literal(toks, pos) {
        Some(text) => {
            if int_digits(text.as_str()).is_some() {
                return match parse_usize_literal(text.as_str()) {
                    Ok(v) => Ok((CompileTimeExpr::Lit(v), pos + 1)),
                    Err(e) => Err(e),
                };
            }
        },
        None => {},
    }
    match peek_ident(toks, pos) {
        Some(name) => {
            if same_text(name.as_str(), "n") {
                Ok((CompileTimeExpr::State, pos + 1))
            } else {
                Err(String::from_str("constraint expression must be 'n', a literal, or simple arithmetic"))
            }
        },
        None => Err(String::from_str("expected identifier")),
    }
}

/// A constraint expression at `pos`: an operand, or the sum or difference of
/// two, and the position after it.
pub open spec fn expr_of(tv: Seq<TokenView>, pos: int) -> Option<(CompileTimeExpr, int)> {
    match primary_of(tv, pos) {
        None => None,
        Some(l) => if punct_at(tv, pos + 1, '+') {
            match primary_of(tv, pos + 2) {
                Some(r) => Some((CompileTimeExpr::Add(Box::new(l), Box::new(r)), pos + 3)),
                None => None,
            }
        } else if punct_at(tv, pos + 1, '-') {
            match primary_of(tv, pos + 2) {
                Some(r) => Some((CompileTimeExpr::Sub(Box::new(l), Box::new(r)), pos + 3)),
                None => None,
            }
        } else {
            Some((l, pos + 1))
        },
    }
}

/// Parses a constraint expression at `pos`.
pub fn parse_constraint_expr(toks: &Vec<DslToken>, pos: usize) -> (r: Result<(CompileTimeExpr, usize), String>)
    requires
        toks@.len() < usize::MAX - 3,
    ensures
        r is Ok <==> expr_of(token_views(toks@), pos as int) is Some,
        r matches Ok((e, p)) ==> expr_of(token_views(toks@), pos as int) == Some((e, p as int)),
{
    if pos >= toks.len() {
        return Err(String::from_str("expected identifier"));
    }
    let (left, p) = match parse_primary_expr(toks, pos) {
        Ok(x) => x,
        Err(e) => {
            return Err(e);
        },
    };
    if peek_punct(toks, p, '+') {
        match parse_primary_expr(toks, p + 1) {
            Ok((right, q)) => Ok((CompileTimeExpr::Add(Box::new(left), Box::new(right)), q)),
            Err(e) => Err(e),
        }
    } else if peek_punct(toks, p, '-') {
        match parse_primary_expr(toks, p + 1) {
            Ok((right, q)) => Ok((CompileTimeExpr::Sub(Box::new(left), Box::new(right)), q)),
            Err(e) => Err(e),
        }
    } else {
        Ok((left, p))
    }
}

/// The error of a range without a bound.
pub open spec fn open_ended_error() -> Seq<char> {
    "open-ended ranges (..n or n..) are not supported"@
}

/// The constraint of a validation, the whole content `tv`: `n` alone for
/// equality, or a range `a..b` of two expressions.
pub open spec fn constraint_of(tv: Seq<TokenView>, pos: int) -> Option<(CompileTimeConstraint, int)> {
    if punct2_at(tv, pos, '.', '.') {
        None
    } else {
        match expr_of(tv, pos) {
            None => None,
            Some((first, p)) => if punct2_at(tv, p, '.', '.') {
                match expr_of(tv, p + 2) {
                    Some((second, q)) => Some((CompileTimeConstraint::Range { min: first, max_exclusive: second }, q)),
                    None => None,
                }
            } else if first is State {
                Some((CompileTimeConstraint::Equals, p))
            } else {
                None
            },
        }
    }
}

/// Whether the constraint at `pos` is an open-ended range: `..n`, or an
/// expression followed by `..` and nothing more.
pub open spec fn open_ended_at(tv: Seq<TokenView>, pos: int) -> bool {
    ||| punct2_at(tv, pos, '.', '.')
    ||| (expr_of(tv, pos) is Some && punct2_at(tv, (expr_of(tv, pos)->0).1, '.', '.')
        && (expr_of(tv, pos)->0).1 + 2 >= tv.len())
}

/// Parses the constraint of a validation at `pos`.
pub fn parse_constraint(toks: &Vec<DslToken>, pos: usize) -> (r: Result<(CompileTimeConstraint, usize), String>)
    requires
        toks@.len() < usize::MAX - 3,
    ensures
        r is Ok <==> constraint_of(token_views(toks@), pos as int) is Some,
        r matches Ok((c, p)) ==> constraint_of(token_views(toks@), pos as int) == Some((c, p as int)),
        r matches Err(e) ==> punct2_at(token_views(toks@), pos as int, '.', '.') ==> e@ == open_ended_error(),
        open_ended_at(token_views(toks@), pos as int) ==> (r matches Err(e) && e@ == open_ended_error()),
{
    if peek_punct2(toks, pos, '.', '.') {
        return Err(String::from_str("open-ended ranges (..n or n..) are not supported"));
    }
    let (first, p) = match parse_constraint_expr(toks, pos) {
        Ok(x) => x,
        Err(e) => {
            return Err(e);
        },
    };
    if peek_punct2(toks, p, '.', '.') {
        if p + 2 >= toks.len() {
            return Err(String::from_str("open-ended ranges (..n or n..) are not supported"));
        }
        match parse_constraint_expr(toks, p + 2) {
            Ok((second, q)) => Ok((CompileTimeConstraint::Range { min: first, max_exclusive: second }, q)),
            Err(e) => Err(e),
        }
    } else {
        match first {
            CompileTimeExpr::State => Ok((CompileTimeConstraint::Equals, p)),
            _ => Err(String::from_str("constraint expression must be 'n', a literal, or simple arithmetic")),
        }
    }
}

/// The value of the string literal at `pos`, if the token there is one.
pub open spec fn string_at(tv: Seq<TokenView>, pos: int) -> Option<Seq<char>> {
    match literal_at(tv, pos) {
        Some(t) => string_literal_value(t),
        None => None,
    }
}

/// The value of the string literal at `pos`, if the token there is one.
pub fn peek_string(toks: &Vec<DslToken>, pos: usize) -> (r: Option<String>)
    ensures
        r is Some <==> string_at(token_views(toks@), pos as int) is Some,
        r matches Some(s) ==> string_at(token_views(toks@), pos as int) == Some(s@),
{
    match peek_literal(toks, pos) {
        Some(text) => string_value(text.as_str()),
        None => None,
    }
}

/// The operation at `pos`: `capture` or `validate` (true for a capture) and
/// the tokens of its argument list.
pub open spec fn op_call_at(tv: Seq<TokenView>, pos: int) -> Option<(bool, Seq<TokenView>)> {
    match ident_at(tv, pos) {
        Some(name) => if keyword_of(name) == Some(DslKeyword::Capture) || keyword_of(name) == Some(DslKeyword::Validate) {
            match group_at(tv, pos + 1) {
                Some((d, g)) => if d == '(' {
                    Some((keyword_of(name) == Some(DslKeyword::Capture), g))
                } else {
                    None
                },
                None => None,
            }
        } else {
            None
        },
        None => None,
    }
}

/// The arguments `g` of a capture or validation are well formed and `seg` is
/// the segment they give: a count operation `("unit", state)`, with an
/// optional constraint for a validation, or a string operation `(state)`.
pub open spec fn op_segment(is_capture: bool, g: Seq<TokenView>, seg: DynamicSegment) -> bool {
    if string_at(g, 0) is Some {
        let unit = string_at(g, 0)->0;
        &&& unit.len() > 0
        &&& punct_at(g, 1, ',')
        &&& ident_at(g, 2) is Some
        &&& if is_capture {
            &&& g.len() == 3
            &&& seg matches DynamicSegment::Capture { pattern: Some(p), state_name } && p@ == unit
                && state_name@ == ident_at(g, 2)->0
        } else {
            seg matches DynamicSegment::Validate { pattern: Some(p), state_name, constraint } && p@ == unit
                && state_name@ == ident_at(g, 2)->0 && match constraint {
                    None => g.len() == 3,
                    Some(c) => punct_at(g, 3, ',') && constraint_of(g, 4) == Some((c, g.len() as int)),
                }
        }
    } else {
        &&& g.len() == 1
        &&& ident_at(g, 0) is Some
        &&& if is_capture {
            seg matches DynamicSegment::Capture { pattern: None, state_name } && state_name@ == ident_at(g, 0)->0
        } else {
            seg matches DynamicSegment::Validate { pattern: None, state_name, constraint: None }
                && state_name@ == ident_at(g, 0)->0
        }
    }
}

/// Whether the arguments `g` of a capture or validation are well formed.
pub open spec fn op_args_ok(is_capture: bool, g: Seq<TokenView>) -> bool {
    if string_at(g, 0) is Some {
        &&& string_at(g, 0)->0.len() > 0
        &&& punct_at(g, 1, ',')
        &&& ident_at(g, 2) is Some
        &&& if is_capture {
            g.len() == 3
        } else {
            g.len() == 3 || (punct_at(g, 3, ',') && constraint_of(g, 4) is Some && (constraint_of(g, 4)->0).1 == g.len())
        }
    } else {
        g.len() == 1 && ident_at(g, 0) is Some
    }
}

/// The error that the arguments `g` of a capture (`is_capture`) or
/// validation give where they are malformed in one of these ways: an empty
/// unit, extra arguments, or an open-ended range as a validation's
/// constraint.
pub open spec fn op_args_error(is_capture: bool, g: Seq<TokenView>) -> Option<Seq<char>> {
    if string_at(g, 0) is Some {
        if string_at(g, 0)->0.len() == 0 {
            Some("count capture/validate pattern cannot be empty"@)
        } else if punct_at(g, 1, ',') && ident_at(g, 2) is Some {
            if is_capture {
                if g.len() != 3 { Some("capture() takes exactly 2 arguments"@) } else { None }
            } else if punct_at(g, 3, ',') {
                if open_ended_at(g, 4) {
                    Some(open_ended_error())
                } else if constraint_of(g, 4) is Some && (constraint_of(g, 4)->0).1 != g.len() {
                    Some("validate() takes 2 or 3 arguments"@)
                } else {
                    None
                }
            } else if g.len() != 3 {
                Some("validate() takes 2 or 3 arguments"@)
            } else {
                None
            }
        } else {
            None
        }
    } else if ident_at(g, 0) is Some && g.len() != 1 {
        Some(if is_capture { "capture() takes exactly 1 argument"@ } else { "validate() takes exactly 1 argument"@ })
    } else {
        None
    }
}

/// Parses a capture or validation of a state at `pos`:
/// `capture("unit", state)`, `capture(state)`, `validate("unit", state)`,
/// `validate("unit", state, constraint)` or `validate(state)`.
pub fn parse_capture_or_validate(toks: &Vec<DslToken>, pos: usize) -> (r: Result<(DynamicSegment, usize), String>)
    requires
        pos < usize::MAX - 2,
    ensures
        r is Ok ==> (op_call_at(token_views(toks@), pos as int) matches Some((cap, g)) && op_args_ok(cap, g)),
        (op_call_at(token_views(toks@), pos as int) matches Some((cap, g)) && op_args_ok(cap, g) && g.len() < usize::MAX - 8)
            ==> r is Ok,
        r matches Ok((seg, p)) ==> p == pos + 2 && (op_call_at(token_views(toks@), pos as int) matches Some((cap, g))
            && op_segment(cap, g, seg)),
        (op_call_at(token_views(toks@), pos as int) is Some
            && (op_call_at(token_views(toks@), pos as int)->0).1.len() < usize::MAX - 8
            && op_args_error((op_call_at(token_views(toks@), pos as int)->0).0,
                (op_call_at(token_views(toks@), pos as int)->0).1) is Some)
            ==> (r matches Err(e) && e@ == op_args_error((op_call_at(token_views(toks@), pos as int)->0).0,
                (op_call_at(token_views(toks@), pos as int)->0).1)->0),
{
    let ghost tv = token_views(toks@);
    let name = match peek_ident(toks, pos) {
        Some(n) => n,
        None => {
            return Err(String::from_str("expected identifier"));
        },
    };
    let kw = DslKeyword::from_ident(name.as_str());
    let is_capture = match kw {
        Some(DslKeyword::Capture) => true,
        Some(DslKeyword::Validate) => false,
        _ => {
            return Err(String::from_str("expected 'capture' or 'validate'"));
        },
    };
    let g = match group_tokens(toks, pos + 1, '(') {
        Ok(g) => g,
        Err(e) => {
            return Err(e);
        },
    };
    let ghost gv = token_views(g@);
    assert(op_call_at(tv, pos as int) == Some((is_capture, gv)));
    if g.len() >= usize::MAX - 8 {
        return Err(String::from_str("too many arguments"));
    }
    match peek_string(&g, 0) {
        Some(pattern) => {
            if pattern.as_str().unicode_len() == 0 {
                return Err(String::from_str("count capture/validate pattern cannot be empty"));
            }
            if !peek_punct(&g, 1, ',') {
                return Err(String::from_str("expected `,`"));
            }
            let state_name = match peek_ident(&g, 2) {
                Some(n) => n,
                None => {
                    return Err(String::from_str("expected identifier"));
                },
            };
            if is_capture {
                if g.len() != 3 {
                    return Err(String::from_str("capture() takes exactly 2 arguments"));
                }
                Ok((DynamicSegment::Capture { pattern: Some(pattern), state_name }, pos + 2))
            } else {
                let constraint = if peek_punct(&g, 3, ',') {
                    match parse_constraint(&g, 4) {
                        Ok((c, q)) => {
                            if q != g.len() {
                                return Err(String::from_str("validate() takes 2 or 3 arguments"));
                            }
                            Some(c)
                        },
                        Err(e) => {
                            return Err(e);
                        },
                    }
                } else {
                    if g.len() != 3 {
                        return Err(String::from_str("validate() takes 2 or 3 arguments"));
                    }
                    None
                };
                Ok((DynamicSegment::Validate { pattern: Some(pattern), state_name, constraint }, pos + 2))
            }
        },
        None => {
            let state_name = match peek_ident(&g, 0) {
                Some(n) => n,
                None => {
                    return Err(String::from_str("expected identifier"));
                },
            };
            if g.len() != 1 {
                return Err(String::from_str(
                    if is_capture { "capture() takes exactly 1 argument" } else { "validate() takes exactly 1 argument" },
                ));
            }
            if is_capture {
                Ok((DynamicSegment::Capture { pattern: None, state_name }, pos + 2))
            } else {
                Ok((DynamicSegment::Validate { pattern: None, state_name, constraint: None }, pos + 2))
            }
        },
    }
}

/// The form of a lookahead condition at `pos`: `followed by "re"` (true) or
/// `not followed by "re"` (false), the expression, and the position after it.
pub open spec fn lookahead_form(tv: Seq<TokenView>, pos: int) -> Option<(bool, Seq<char>, int)> {
    if ident_at(tv, pos) == Some("followed"@) && ident_at(tv, pos + 1) == Some("by"@) && string_at(tv, pos + 2) is Some {
        Some((true, string_at(tv, pos + 2)->0, pos + 3))
    } else if ident_at(tv, pos) == Some("not"@) && ident_at(tv, pos + 1) == Some("followed"@)
        && ident_at(tv, pos + 2) == Some("by"@) && string_at(tv, pos + 3) is Some {
        Some((false, string_at(tv, pos + 3)->0, pos + 4))
    } else {
        None
    }
}

/// Parses a lookahead condition at `pos`: `followed by "re"` or
/// `not followed by "re"`; fails where the expression's automaton cannot be
/// built.
pub fn parse_lookahead(toks: &Vec<DslToken>, pos: usize) -> (r: Result<(Lookahead, usize), String>)
    requires
        pos < usize::MAX - 4,
    ensures
        lookahead_form(token_views(toks@), pos as int) is None ==> r is Err,
        r matches Ok((l, p)) ==> lookahead_form(token_views(toks@), pos as int) matches Some((positive, re, end))
            && p == end && if positive {
                l matches Lookahead::Positive(x) && x@ == re
            } else {
                l matches Lookahead::Negative(x) && x@ == re
            },
        r is Ok ==> regex_syntax_error((lookahead_form(token_views(toks@), pos as int)->0).1) is None,
        (lookahead_form(token_views(toks@), pos as int) is Some
            && crate::nfa::expression_builds((lookahead_form(token_views(toks@), pos as int)->0).1)) ==> r is Ok,
{
    proof {
        reveal_strlit("followed");
        reveal_strlit("not");
        reveal_strlit("by");
        assert("followed"@.len() == 8 && "not"@.len() == 3 && "by"@.len() == 2);
    }
    let first = match peek_ident(toks, pos) {
        Some(n) => n,
        None => {
            return Err(String::from_str("expected identifier `followed_or_not`"));
        },
    };
    let (is_positive, p) = match DslKeyword::from_ident(first.as_str()) {
        Some(DslKeyword::Followed) => (true, pos + 1),
        Some(DslKeyword::Not) => {
            match peek_ident(toks, pos + 1) {
                Some(n) => {
                    if DslKeyword::from_ident(n.as_str()) != Some(DslKeyword::Followed) {
                        return Err(String::from_str("expected 'followed'"));
                    }
                },
                None => {
                    return Err(String::from_str("expected identifier `followed`"));
                },
            }
            (false, pos + 2)
        },
        _ => {
            return Err(String::from_str("expected 'followed' or 'not'"));
        },
    };
    match peek_ident(toks, p) {
        Some(n) => {
            if DslKeyword::from_ident(n.as_str()) != Some(DslKeyword::By) {
                return Err(String::from_str("expected 'by'"));
            }
        },
        None => {
            return Err(String::from_str("expected identifier `by`"));
        },
    }
    let pattern = match peek_string(toks, p + 1) {
        Some(s) => s,
        None => {
            return Err(String::from_str("expected a string literal for the lookahead pattern"));
        },
    };
    if is_positive {
        match Lookahead::positive(pattern) {
            Ok(l) => Ok((l, p + 2)),
            Err(e) => {
                let mut msg = String::from_str("Failed to create positive lookahead: ");
                msg.append(e.as_str());
                Err(msg)
            },
        }
    } else {
        match Lookahead::negative(pattern) {
            Ok(l) => Ok((l, p + 2)),
            Err(e) => {
                let mut msg = String::from_str("Failed to create negative lookahead: ");
                msg.append(e.as_str());
                Err(msg)
            },
        }
    }
}

/// The regular expressions of the first `n` segments, joined.
fn join_regex_parts(segments: &Vec<DynamicSegment>) -> (r: String)
    ensures
        r@ == joined_regex(segments@),
{
    let mut out: Vec<char> = Vec::new();
    let mut i: usize = 0;
    while i < segments.len()
        invariant
            i <= segments@.len(),
            out@ == joined_regex(segments@.take(i as int)),
        decreases segments.len() - i,
    {
        assert(segments@.take(i as int + 1).drop_last() =~= segments@.take(i as int));
        match &segments[i] {
            DynamicSegment::Regex { pattern } => {
                let cs = crate::text::str_to_chars(pattern.as_str());
                let mut k: usize = 0;
                let ghost before = out@;
                while k < cs.len()
                    invariant
                        k <= cs@.len(),
                        out@ == before + cs@.take(k as int),
                    decreases cs.len() - k,
                {
                    out.push(cs[k]);
                    assert(cs@.take(k as int + 1) =~= cs@.take(k as int).push(cs@[k as int]));
                    k = k + 1;
                }
                assert(cs@.take(cs@.len() as int) =~= cs@);
            },
            _ => {
                assert(out@ =~= out@ + Seq::<char>::empty());
            },
        }
        i = i + 1;
    }
    assert(segments@.take(segments@.len() as int) =~= segments@);
    crate::text::chars_to_string(out.as_slice())
}

/// The number of runtime-state operations among the segments.
fn count_ops(segments: &Vec<DynamicSegment>) -> (r: usize)
    ensures
        r == op_count(segments@, segments@.len() as int),
{
    let mut c: usize = 0;
    let mut i: usize = 0;
    while i < segments.len()
        invariant
            i <= segments@.len(),
            c == op_count(segments@, i as int),
            c <= i,
        decreases segments.len() - i,
    {
        match &segments[i] {
            DynamicSegment::Regex { .. } => {},
            _ => {
                c = c + 1;
            },
        }
        i = i + 1;
    }
    c
}

/// The pattern `pat` ends at `p`: its token type is the integer literal before
/// the closing `;`, after `=>`.
pub open spec fn pattern_tail(tv: Seq<TokenView>, p: int, pat: Pattern) -> bool {
    &&& p >= 4
    &&& punct2_at(tv, p - 4, '=', '>')
    &&& literal_at(tv, p - 2) is Some
    &&& int_value(literal_at(tv, p - 2)->0) == Some(pat.terminal_type as nat)
    &&& punct_at(tv, p - 1, ';')
}

/// The segment at `start` is `seg` and ends at `end`: a string literal, or a
/// capture or validation with its argument list.
pub open spec fn segment_read(tv: Seq<TokenView>, start: int, seg: DynamicSegment, end: int) -> bool {
    if string_at(tv, start) is Some {
        &&& end == start + 1
        &&& seg matches DynamicSegment::Regex { pattern } && pattern@ == string_at(tv, start)->0
    } else {
        &&& end == start + 2
        &&& op_call_at(tv, start) matches Some((cap, g)) && op_segment(cap, g, seg)
    }
}

/// Where segment `i` starts, given where the segments before it end: the
/// first at `pos`, each later one after the `+` that follows its predecessor.
pub open spec fn segment_start(pos: int, ends: Seq<int>, i: int) -> int {
    if i == 0 { pos } else { ends[i - 1] + 1 }
}

/// Whether a `+` follows segment `i - 1`.
pub open spec fn joined_before(tv: Seq<TokenView>, ends: Seq<int>, i: int) -> bool {
    punct_at(tv, ends[i - 1], '+')
}

/// The segments `segs`, ending at `ends`, were read from `pos` on, joined by `+`.
pub open spec fn segments_prefix_read(tv: Seq<TokenView>, pos: int, segs: Seq<DynamicSegment>, ends: Seq<int>) -> bool {
    &&& segs.len() >= 1
    &&& ends.len() == segs.len()
    &&& forall|i: int| 0 <= i < segs.len() ==> segment_read(tv, segment_start(pos, ends, i), #[trigger] segs[i], ends[i])
    &&& forall|i: int| 0 < i < segs.len() ==> #[trigger] joined_before(tv, ends, i)
}

/// The segments `segs` of a pattern were read from `pos` on: joined by `+`,
/// and no `+` follows the last.
pub open spec fn segments_read(tv: Seq<TokenView>, pos: int, segs: Seq<DynamicSegment>, ends: Seq<int>) -> bool {
    &&& segments_prefix_read(tv, pos, segs, ends)
    &&& !punct_at(tv, ends.last(), '+')
}

/// The lookahead condition `l` was read at `e`, ending at `after`: a
/// condition where `followed` or `not` stands there, else none.
pub open spec fn lookahead_read(tv: Seq<TokenView>, e: int, l: Lookahead, after: int) -> bool {
    if ident_at(tv, e) is Some && (keyword_of(ident_at(tv, e)->0) == Some(DslKeyword::Followed)
        || keyword_of(ident_at(tv, e)->0) == Some(DslKeyword::Not)) {
        &&& lookahead_form(tv, e) is Some
        &&& after == (lookahead_form(tv, e)->0).2
        &&& if (lookahead_form(tv, e)->0).0 {
            l matches Lookahead::Positive(x) && x@ == (lookahead_form(tv, e)->0).1
        } else {
            l matches Lookahead::Negative(x) && x@ == (lookahead_form(tv, e)->0).1
        }
    } else {
        &&& l is Absent
        &&& after == e
    }
}

/// The lookahead condition `l` was read at `e` where runtime state is not
/// enabled, ending at `after`: a condition where an identifier stands there,
/// else none.
pub open spec fn lookahead_read_plain(tv: Seq<TokenView>, e: int, l: Lookahead, after: int) -> bool {
    if ident_at(tv, e) is Some {
        &&& lookahead_form(tv, e) is Some
        &&& after == (lookahead_form(tv, e)->0).2
        &&& if (lookahead_form(tv, e)->0).0 {
            l matches Lookahead::Positive(x) && x@ == (lookahead_form(tv, e)->0).1
        } else {
            l matches Lookahead::Negative(x) && x@ == (lookahead_form(tv, e)->0).1
        }
    } else {
        &&& l is Absent
        &&& after == e
    }
}

/// The pattern `pat` was read from the segments `segs`: its expression is
/// theirs joined, and one capture or validation among them (at most one)
/// makes it keep them for resolution.
pub open spec fn pattern_of_segments(pat: Pattern, segs: Seq<DynamicSegment>) -> bool {
    &&& pat.pattern@ == joined_regex(segs)
    &&& pat.priority == 0
    &&& op_count(segs, segs.len() as int) <= 1
    &&& op_count(segs, segs.len() as int) == 1 ==> (pat.dynamic matches Some(crate::pattern::PatternDynamic::Unresolved(u))
        && u.segments@ == segs)
    &&& op_count(segs, segs.len() as int) == 0 ==> pat.dynamic is None
}

/// Where the token pattern at `pos` ends, if both grammars read it in the
/// same way without fail: a string literal, an optional lookahead condition
/// whose expression builds, `=>`, an integer literal that fits and `;`.
pub open spec fn token_pattern_end(tv: Seq<TokenView>, pos: int) -> Option<int> {
    let after = if lookahead_form(tv, pos + 1) is Some { (lookahead_form(tv, pos + 1)->0).2 } else { pos + 1 };
    if string_at(tv, pos) is Some
        && (ident_at(tv, pos + 1) is Some ==> lookahead_form(tv, pos + 1) is Some
            && crate::nfa::expression_builds((lookahead_form(tv, pos + 1)->0).1))
        && punct2_at(tv, after, '=', '>') && usize_at(tv, after + 2) is Some && punct_at(tv, after + 3, ';') {
        Some(after + 4)
    } else {
        None
    }
}

/// Whether the tokens at `pos` are a simple pattern, which both grammars
/// accept: a string literal, `=>`, an integer literal that fits and `;`.
pub open spec fn simple_pattern_at(tv: Seq<TokenView>, pos: int) -> bool {
    &&& string_at(tv, pos) is Some
    &&& punct2_at(tv, pos + 1, '=', '>')
    &&& usize_at(tv, pos + 3) is Some
    &&& punct_at(tv, pos + 4, ';')
}

/// Whether the tokens at `pos` are a pattern that the grammar with runtime
/// state accepts, without a lookahead condition: the segments `segs`, ending
/// at `ends`, at most one of them a capture or validation (each argument list
/// of a size that fits), then `=>`, an integer literal that fits and `;`.
pub open spec fn plain_dynamic_pattern_at(tv: Seq<TokenView>, pos: int, segs: Seq<DynamicSegment>, ends: Seq<int>) -> bool {
    &&& dynamic_tokens_at(tv, pos, segs, ends)
    &&& op_count(segs, segs.len() as int) <= 1
}

/// Whether the tokens at `pos` are segments `segs`, ending at `ends` (each
/// argument list of a size that fits), then `=>`, an integer literal that
/// fits and `;`, whatever the number of captures and validations.
pub open spec fn dynamic_tokens_at(tv: Seq<TokenView>, pos: int, segs: Seq<DynamicSegment>, ends: Seq<int>) -> bool {
    &&& segments_read(tv, pos, segs, ends)
    &&& forall|i: int| 0 <= i < segs.len() && #[trigger] is_op_segment(segs[i])
        ==> (op_call_at(tv, segment_start(pos, ends, i))->0).1.len() < usize::MAX - 8
    &&& punct2_at(tv, ends.last(), '=', '>')
    &&& usize_at(tv, ends.last() + 2) is Some
    &&& punct_at(tv, ends.last() + 3, ';')
}

/// Two readings of segments from `pos` agree on their first `k` ends and on
/// which of them are captures or validations.
proof fn lemma_segments_agree(tv: Seq<TokenView>, pos: int, s1: Seq<DynamicSegment>, e1: Seq<int>,
    s2: Seq<DynamicSegment>, e2: Seq<int>, k: int)
    requires
        segments_prefix_read(tv, pos, s1, e1),
        segments_prefix_read(tv, pos, s2, e2),
        0 <= k <= s1.len(),
        k <= s2.len(),
    ensures
        forall|i: int| 0 <= i < k ==> #[trigger] e1[i] == e2[i] && (is_op_segment(s1[i]) <==> is_op_segment(s2[i])),
    decreases k,
{
    if k > 0 {
        lemma_segments_agree(tv, pos, s1, e1, s2, e2, k - 1);
        let i = k - 1;
        if i > 0 {
            assert(e1[i - 1] == e2[i - 1]);
        }
        let st = segment_start(pos, e1, i);
        assert(st == segment_start(pos, e2, i));
        assert(segment_read(tv, st, s1[i], e1[i]));
        assert(segment_read(tv, st, s2[i], e2[i]));
        if string_at(tv, st) is None {
            let (cap, g) = op_call_at(tv, st)->0;
            lemma_op_segment_args_ok(cap, g, s1[i]);
            lemma_op_segment_args_ok(cap, g, s2[i]);
        }
    }
}

/// The segments of a pattern are read in one way only: the same ends, and
/// captures and validations at the same places.
proof fn lemma_segments_unique(tv: Seq<TokenView>, pos: int, s1: Seq<DynamicSegment>, e1: Seq<int>,
    s2: Seq<DynamicSegment>, e2: Seq<int>)
    requires
        segments_read(tv, pos, s1, e1),
        segments_read(tv, pos, s2, e2),
    ensures
        s1.len() == s2.len(),
        e1 == e2,
        op_count(s1, s1.len() as int) == op_count(s2, s2.len() as int),
{
    if s1.len() < s2.len() {
        lemma_segments_agree(tv, pos, s1, e1, s2, e2, s1.len() as int);
        let n = s1.len() as int;
        assert(e1[n - 1] == e2[n - 1]);
        assert(joined_before(tv, e2, n));
        assert(false);
    } else if s2.len() < s1.len() {
        lemma_segments_agree(tv, pos, s1, e1, s2, e2, s2.len() as int);
        let n = s2.len() as int;
        assert(e1[n - 1] == e2[n - 1]);
        assert(joined_before(tv, e1, n));
        assert(false);
    }
    lemma_segments_agree(tv, pos, s1, e1, s2, e2, s1.len() as int);
    assert(e1 =~= e2);
    lemma_op_count_same_kinds(s1, s2, s1.len() as int);
}

/// An operation read as a segment has well-formed arguments.
proof fn lemma_op_segment_args_ok(is_capture: bool, g: Seq<TokenView>, seg: DynamicSegment)
    requires
        op_segment(is_capture, g, seg),
    ensures
        op_args_ok(is_capture, g),
        is_op_segment(seg),
{
}

/// Two lists of segments of the same kinds, position by position, hold as
/// many captures and validations.
proof fn lemma_op_count_same_kinds(a: Seq<DynamicSegment>, b: Seq<DynamicSegment>, n: int)
    requires
        0 <= n <= a.len(),
        a.len() == b.len(),
        forall|i: int| 0 <= i < a.len() ==> (is_op_segment(#[trigger] a[i]) <==> is_op_segment(b[i])),
    ensures
        op_count(a, n) == op_count(b, n),
    decreases n,
{
    if n > 0 {
        lemma_op_count_same_kinds(a, b, n - 1);
        assert(is_op_segment(a[n - 1]) <==> is_op_segment(b[n - 1]));
    }
}

/// Parses a token pattern at `pos` where runtime state is enabled: segments
/// joined by `+`, each a string literal or a capture or validation, an
/// optional lookahead condition, `=>`, the token type and `;`. The pattern's
/// expression is that of its string segments joined; a pattern with one
/// capture or validation (at most one is allowed) keeps its segments for
/// resolution.
#[verifier::rlimit(60)]
#[verifier::spinoff_prover]
pub fn parse_pattern_dynamic_enabled(toks: &Vec<DslToken>, pos: usize) -> (r: Result<(Pattern, usize), String>)
    requires
        toks@.len() < usize::MAX - 8,
    ensures
        r matches Ok((pat, p)) ==> {
            &&& pos < p <= toks@.len()
            &&& pattern_tail(token_views(toks@), p as int, pat)
            &&& pat.priority == 0
            &&& exists|segs: Seq<DynamicSegment>, ends: Seq<int>, after: int|
                #![trigger segments_read(token_views(toks@), pos as int, segs, ends), lookahead_read(token_views(toks@), ends.last(), pat.lookahead, after)]
                segments_read(token_views(toks@), pos as int, segs, ends)
                && lookahead_read(token_views(toks@), ends.last(), pat.lookahead, after)
                && p == after + 4
                && pattern_of_segments(pat, segs)
            &&& match pat.dynamic {
                None => true,
                Some(crate::pattern::PatternDynamic::Unresolved(u)) => op_count(u.segments@, u.segments@.len() as int) == 1
                    && pat.pattern@ == joined_regex(u.segments@),
                Some(crate::pattern::PatternDynamic::Compiled(_)) => false,
            }
        },
        string_at(token_views(toks@), pos as int) is None && op_call_at(token_views(toks@), pos as int) is None ==> r is Err,
        (exists|segs: Seq<DynamicSegment>, ends: Seq<int>| #[trigger] plain_dynamic_pattern_at(token_views(toks@), pos as int, segs, ends))
            ==> r is Ok,
        simple_pattern_at(token_views(toks@), pos as int) ==> (r matches Ok((_, p)) && p == pos + 5),
        (exists|segs: Seq<DynamicSegment>, ends: Seq<int>| #[trigger] dynamic_tokens_at(token_views(toks@), pos as int, segs, ends)
            && op_count(segs, segs.len() as int) > 1)
            ==> (r matches Err(e) && e@ == "only one capture() or validate() is allowed per pattern"@),
        token_pattern_end(token_views(toks@), pos as int) matches Some(e) ==> (r matches Ok((_, p)) && p == e),
{
    let ghost simple = simple_pattern_at(token_views(toks@), pos as int);
    let ghost plain = token_pattern_end(token_views(toks@), pos as int) is Some;
    proof {
        reveal_strlit("followed");
        reveal_strlit("not");
        assert("followed"@.len() == 8 && "not"@.len() == 3);
    }
    let ghost tv = token_views(toks@);
    let ghost wanted = exists|segs: Seq<DynamicSegment>, ends: Seq<int>| #[trigger] dynamic_tokens_at(tv, pos as int, segs, ends);
    let ghost (wsegs, wends) = choose|segs: Seq<DynamicSegment>, ends: Seq<int>| #[trigger] dynamic_tokens_at(tv, pos as int, segs, ends);
    proof {
        if exists|segs: Seq<DynamicSegment>, ends: Seq<int>| #[trigger] plain_dynamic_pattern_at(tv, pos as int, segs, ends) {
            let (ps, pe) = choose|segs: Seq<DynamicSegment>, ends: Seq<int>| #[trigger] plain_dynamic_pattern_at(tv, pos as int, segs, ends);
            assert(dynamic_tokens_at(tv, pos as int, ps, pe));
            lemma_segments_unique(tv, pos as int, wsegs, wends, ps, pe);
        }
        if exists|segs: Seq<DynamicSegment>, ends: Seq<int>| #[trigger] dynamic_tokens_at(tv, pos as int, segs, ends)
            && op_count(segs, segs.len() as int) > 1 {
            let (ms, me) = choose|segs: Seq<DynamicSegment>, ends: Seq<int>| #[trigger] dynamic_tokens_at(tv, pos as int, segs, ends)
                && op_count(segs, segs.len() as int) > 1;
            lemma_segments_unique(tv, pos as int, wsegs, wends, ms, me);
        }
    }
    proof {
        if wanted {
            assert(segment_start(pos as int, wends, 0) == pos);
            assert(segment_read(tv, pos as int, wsegs[0], wends[0]));
            if string_at(tv, pos as int) is None {
                let (cap, g) = op_call_at(tv, pos as int)->0;
                lemma_op_segment_args_ok(cap, g, wsegs[0]);
            }
        }
    }
    let mut segments: Vec<DynamicSegment> = Vec::new();
    let ghost mut ends: Seq<int> = Seq::empty();
    let mut p: usize = pos;
    match peek_string(toks, p) {
        Some(s) => {
            segments.push(DynamicSegment::Regex { pattern: s });
            p = p + 1;
        },
        None => {
            let is_op = match peek_ident(toks, p) {
                Some(n) => match DslKeyword::from_ident(n.as_str()) {
                    Some(kw) => kw.is_dynamic_op(),
                    None => false,
                },
                None => false,
            };
            if !is_op {
                return Err(String::from_str("expected a string literal or capture()/validate()"));
            }
            match parse_capture_or_validate(toks, p) {
                Ok((seg, q)) => {
                    segments.push(seg);
                    p = q;
                },
                Err(e) => {
                    return Err(e);
                },
            }
        },
    }
    proof {
        ends = seq![p as int];
        assert(segment_read(tv, segment_start(pos as int, ends, 0), segments@[0], ends[0]));
        if wanted {
            assert(segment_read(tv, segment_start(pos as int, wends, 0), wsegs[0], wends[0]));
        }
    }
    while peek_punct(toks, p, '+')
        invariant
            pos < p <= toks@.len(),
            toks@.len() < usize::MAX - 8,
            tv == token_views(toks@),
            segments_prefix_read(tv, pos as int, segments@, ends),
            ends.last() == p,
            wanted == exists|segs: Seq<DynamicSegment>, ends: Seq<int>| #[trigger] dynamic_tokens_at(tv, pos as int, segs, ends),
            wanted ==> dynamic_tokens_at(tv, pos as int, wsegs, wends),
            (exists|segs: Seq<DynamicSegment>, ends: Seq<int>| #[trigger] plain_dynamic_pattern_at(tv, pos as int, segs, ends))
                ==> wanted && op_count(wsegs, wsegs.len() as int) <= 1,
            (exists|segs: Seq<DynamicSegment>, ends: Seq<int>| #[trigger] dynamic_tokens_at(tv, pos as int, segs, ends)
                && op_count(segs, segs.len() as int) > 1) ==> wanted && op_count(wsegs, wsegs.len() as int) > 1,
            wanted ==> ends.len() <= wends.len(),
            wanted ==> forall|i: int| 0 <= i < ends.len() ==> #[trigger] ends[i] == wends[i],
            wanted ==> forall|i: int| 0 <= i < ends.len() ==> (is_op_segment(#[trigger] segments@[i]) <==> is_op_segment(wsegs[i])),
            simple == simple_pattern_at(tv, pos as int),
            simple ==> p == pos + 1 && segments@.len() == 1 && segments@[0] is Regex,
            plain == (token_pattern_end(tv, pos as int) is Some),
            plain ==> p == pos + 1 && segments@.len() == 1 && segments@[0] is Regex,
        decreases toks@.len() - p,
    {
        proof {
            if wanted {
                let n = ends.len() as int;
                assert(ends[n - 1] == wends[n - 1]);
                if n == wends.len() {
                    assert(wends.last() == wends[n - 1]);
                    assert(false);
                }
                assert(segment_start(pos as int, wends, n) == p + 1);
                assert(segment_read(tv, segment_start(pos as int, wends, n), wsegs[n], wends[n]));
                if string_at(tv, p + 1) is None {
                    let (cap, g) = op_call_at(tv, p + 1)->0;
                    lemma_op_segment_args_ok(cap, g, wsegs[n]);
                }
            }
        }
        let ghost before = segments@;
        let ghost at = p + 1;
        p = p + 1;
        match peek_string(toks, p) {
            Some(s) => {
                segments.push(DynamicSegment::Regex { pattern: s });
                p = p + 1;
            },
            None => {
                match parse_capture_or_validate(toks, p) {
                    Ok((seg, q)) => {
                        segments.push(seg);
                        p = q;
                    },
                    Err(e) => {
                        return Err(e);
                    },
                }
            },
        }
        proof {
            let old_ends = ends;
            ends = ends.push(p as int);
            let n = segments@.len() - 1;
            assert(segment_start(pos as int, ends, n) == at);
            assert(segment_read(tv, at, segments@[n], p as int));
            assert forall|i: int| 0 <= i < segments@.len() implies
                segment_read(tv, segment_start(pos as int, ends, i), #[trigger] segments@[i], ends[i]) by {
                if i < n {
                    assert(segments@[i] == before[i]);
                    assert(segment_start(pos as int, ends, i) == segment_start(pos as int, old_ends, i));
                }
            }
            assert forall|i: int| 0 < i < segments@.len() implies #[trigger] joined_before(tv, ends, i) by {
                if i < n {
                    assert(joined_before(tv, old_ends, i));
                }
            }
            if wanted {
                assert(ends[n] == wends[n]);
                assert forall|i: int| 0 <= i < ends.len() implies #[trigger] ends[i] == wends[i] by {
                    if i < n {
                        assert(ends[i] == old_ends[i]);
                    }
                }
                assert forall|i: int| 0 <= i < ends.len() implies (is_op_segment(#[trigger] segments@[i]) <==> is_op_segment(wsegs[i])) by {
                    if i < n {
                        assert(segments@[i] == before[i]);
                    }
                }
            }
        }
    }
    proof {
        if wanted {
            let n = ends.len() as int;
            assert(ends[n - 1] == wends[n - 1]);
            if n < wends.len() {
                assert(joined_before(tv, wends, n));
                assert(false);
            }
            assert(wends.last() == p);
            lemma_op_count_same_kinds(segments@, wsegs, n);
        }
    }
    let e = p;
    let mut lookahead = Lookahead::Absent;
    match peek_ident(toks, p) {
        Some(n) => match DslKeyword::from_ident(n.as_str()) {
            Some(kw) => {
                if kw.starts_lookahead() {
                    match parse_lookahead(toks, p) {
                        Ok((l, q)) => {
                            lookahead = l;
                            p = q;
                        },
                        Err(e) => {
                            return Err(e);
                        },
                    }
                } else if kw.is_dynamic_op() {
                    return Err(String::from_str("capture()/validate() segments must be joined with `+`"));
                }
            },
            None => {},
        },
        None => {},
    }
    assert(lookahead_read(tv, e as int, lookahead, p as int));
    if !peek_punct2(toks, p, '=', '>') {
        return Err(String::from_str("expected `=>`"));
    }
    let token_type = match peek_literal(toks, p + 2) {
        Some(text) => match parse_usize_literal(text.as_str()) {
            Ok(v) => v,
            Err(e) => {
                return Err(e);
            },
        },
        None => {
            return Err(String::from_str("expected integer literal"));
        },
    };
    if !peek_punct(toks, p + 3, ';') {
        return Err(String::from_str("expected ';'"));
    }
    let end = p + 4;
    proof {
        if simple || plain {
            assert(!is_op_segment(segments@[0]));
            assert(op_count(segments@, 0) == 0);
            assert(op_count(segments@, 1) == 0);
        }
    }
    let ops = count_ops(&segments);
    if ops > 1 {
        return Err(String::from_str("only one capture() or validate() is allowed per pattern"));
    }
    let ghost segs = segments@;
    let pattern_string = join_regex_parts(&segments);
    let pattern = Pattern::new(pattern_string, token_type).with_lookahead(lookahead);
    let result = if ops == 1 {
        pattern.with_unresolved_dynamic(UnresolvedDynamicPattern { segments })
    } else {
        pattern
    };
    assert(segments_read(tv, pos as int, segs, ends));
    assert(lookahead_read(tv, ends.last(), result.lookahead, p as int));
    assert(pattern_of_segments(result, segs));
    Ok((result, end))
}

/// Parses a token pattern at `pos` where runtime state is not enabled: a
/// string literal, an optional lookahead condition, `=>`, the token type and
/// `;`. Captures, validations and joined segments are refused.
pub fn parse_pattern_dynamic_disabled(toks: &Vec<DslToken>, pos: usize) -> (r: Result<(Pattern, usize), String>)
    requires
        toks@.len() < usize::MAX - 8,
    ensures
        r matches Ok((pat, p)) ==> {
            &&& pos < p <= toks@.len()
            &&& pattern_tail(token_views(toks@), p as int, pat)
            &&& string_at(token_views(toks@), pos as int) == Some(pat.pattern@)
            &&& pat.priority == 0
            &&& pat.dynamic is None
            &&& exists|after: int| #[trigger] lookahead_read_plain(token_views(toks@), pos + 1, pat.lookahead, after)
                && p == after + 4
        },
        string_at(token_views(toks@), pos as int) is None ==> r is Err,
        ident_at(token_views(toks@), pos + 1) is None ==> (r is Ok <==> {
            &&& string_at(token_views(toks@), pos as int) is Some
            &&& punct2_at(token_views(toks@), pos + 1, '=', '>')
            &&& usize_at(token_views(toks@), pos + 3) is Some
            &&& punct_at(token_views(toks@), pos + 4, ';')
        }),
        simple_pattern_at(token_views(toks@), pos as int) ==> (r matches Ok((_, p)) && p == pos + 5),
        token_pattern_end(token_views(toks@), pos as int) matches Some(e) ==> (r matches Ok((_, p)) && p == e),
{
    match peek_ident(toks, pos) {
        Some(n) => match DslKeyword::from_ident(n.as_str()) {
            Some(kw) => {
                if kw.is_dynamic_op() {
                    return Err(String::from_str("capture()/validate() requires enabling the `dynamic-state` feature on scnr2"));
                }
            },
            None => {},
        },
        None => {},
    }
    let pattern = match peek_string(toks, pos) {
        Some(s) => s,
        None => {
            return Err(String::from_str("expected a string literal for the pattern"));
        },
    };
    if peek_punct(toks, pos + 1, '+') {
        return Err(String::from_str("pattern concatenation requires the `dynamic-state` feature"));
    }
    let mut p = pos + 1;
    let mut lookahead = Lookahead::Absent;
    if peek_ident(toks, p).is_some() {
        match parse_lookahead(toks, p) {
            Ok((l, q)) => {
                lookahead = l;
                p = q;
            },
            Err(e) => {
                return Err(e);
            },
        }
    }
    assert(lookahead_read_plain(token_views(toks@), pos + 1, lookahead, p as int));
    if !peek_punct2(toks, p, '=', '>') {
        return Err(String::from_str("expected `=>`"));
    }
    let token_type = match peek_literal(toks, p + 2) {
        Some(text) => match parse_usize_literal(text.as_str()) {
            Ok(v) => v,
            Err(e) => {
                return Err(e);
            },
        },
        None => {
            return Err(String::from_str("expected integer literal"));
        },
    };
    if !peek_punct(toks, p + 3, ';') {
        return Err(String::from_str("expected ';'"));
    }
    Ok((Pattern::new(pattern, token_type).with_lookahead(lookahead), p + 4))
}

/// The pattern `pat` was read at `pos`, ending at `end`, by the grammar with
/// or without runtime state.
pub open spec fn pattern_read(tv: Seq<TokenView>, pos: int, pat: Pattern, end: int, dynamic_state: bool) -> bool {
    &&& pos < end <= tv.len()
    &&& pattern_tail(tv, end, pat)
    &&& if dynamic_state {
        exists|segs: Seq<DynamicSegment>, ends: Seq<int>, after: int|
            #![trigger segments_read(tv, pos, segs, ends), lookahead_read(tv, ends.last(), pat.lookahead, after)]
            segments_read(tv, pos, segs, ends)
            && lookahead_read(tv, ends.last(), pat.lookahead, after)
            && end == after + 4
            && pattern_of_segments(pat, segs)
    } else {
        &&& string_at(tv, pos) == Some(pat.pattern@)
        &&& pat.priority == 0
        &&& pat.dynamic is None
        &&& exists|after: int| #[trigger] lookahead_read_plain(tv, pos + 1, pat.lookahead, after) && end == after + 4
    }
}

/// Parses a token pattern at `pos`, by the grammar with or without runtime
/// state.
pub fn parse_pattern(toks: &Vec<DslToken>, pos: usize, dynamic_state: bool) -> (r: Result<(Pattern, usize), String>)
    requires
        toks@.len() < usize::MAX - 8,
    ensures
        r matches Ok((pat, p)) ==> {
            &&& pattern_read(token_views(toks@), pos as int, pat, p as int, dynamic_state)
            &&& pat.priority == 0
            &&& !(pat.dynamic matches Some(crate::pattern::PatternDynamic::Compiled(_)))
        },
        !dynamic_state && ident_at(token_views(toks@), pos + 1) is None ==> (r is Ok <==> {
            &&& string_at(token_views(toks@), pos as int) is Some
            &&& punct2_at(token_views(toks@), pos + 1, '=', '>')
            &&& usize_at(token_views(toks@), pos + 3) is Some
            &&& punct_at(token_views(toks@), pos + 4, ';')
        }),
        dynamic_state && (exists|segs: Seq<DynamicSegment>, ends: Seq<int>|
            #[trigger] plain_dynamic_pattern_at(token_views(toks@), pos as int, segs, ends)) ==> r is Ok,
        simple_pattern_at(token_views(toks@), pos as int) ==> (r matches Ok((_, p)) && p == pos + 5),
        token_pattern_end(token_views(toks@), pos as int) matches Some(e) ==> (r matches Ok((_, p)) && p == e),
{
    if dynamic_state {
        parse_pattern_dynamic_enabled(toks, pos)
    } else {
        parse_pattern_dynamic_disabled(toks, pos)
    }
}

/// The declaration `d` was read from `name : type(...) ;` at `pos`: its name
/// is the identifier there, its index is `index`, and a count's bounds are
/// ordered.
pub open spec fn declaration_read(tv: Seq<TokenView>, pos: int, index: usize, d: StateDeclaration) -> bool {
    &&& ident_at(tv, pos) == Some(d.name@)
    &&& punct_at(tv, pos + 1, ':')
    &&& d.index == index
    &&& match d.state_type {
        StateType::Count { min, max } => ident_at(tv, pos + 2) == Some("count"@) && min <= max
            && group_content_at(tv, pos + 3) is Some
            && count_range_of(group_content_at(tv, pos + 3)->0) == Some((min, max)),
        StateType::Str { pattern } => ident_at(tv, pos + 2) == Some("str"@)
            && group_content_at(tv, pos + 3) is Some
            && string_at(group_content_at(tv, pos + 3)->0, 0) == Some(pattern@)
            && group_content_at(tv, pos + 3)->0.len() == 1,
    }
    &&& punct_at(tv, pos + 4, ';')
}

/// Whether the tokens at `pos` are a well-formed count state declaration
/// `name: count(a..b);` or `name: count(a..=b);`.
pub open spec fn count_declaration_at(tv: Seq<TokenView>, pos: int) -> bool {
    &&& ident_at(tv, pos) is Some
    &&& punct_at(tv, pos + 1, ':')
    &&& ident_at(tv, pos + 2) == Some("count"@)
    &&& group_at(tv, pos + 3) matches Some((d, g))
    &&& d == '('
    &&& count_range_of(g) is Some
    &&& punct_at(tv, pos + 4, ';')
}

/// The value of the integer literal at `pos`, if it is one that fits.
pub open spec fn usize_at(tv: Seq<TokenView>, pos: int) -> Option<usize> {
    match literal_at(tv, pos) {
        Some(t) => match int_value(t) {
            Some(n) => if n <= usize::MAX { Some(n as usize) } else { None },
            None => None,
        },
        None => None,
    }
}

/// The bounds of a count range `a..b` (exclusive: up to `b - 1`) or `a..=b`,
/// the whole of the tokens `g`, where they are ordered.
pub open spec fn count_range_of(g: Seq<TokenView>) -> Option<(usize, usize)> {
    let inclusive = punct_at(g, 3, '=');
    let q: int = if inclusive { 4 } else { 3 };
    if usize_at(g, 0) is Some && punct2_at(g, 1, '.', '.') && usize_at(g, q) is Some && g.len() == q + 1 {
        let a = usize_at(g, 0)->0;
        let b = usize_at(g, q)->0;
        if inclusive {
            if a <= b { Some((a, b)) } else { None }
        } else {
            if a < b { Some((a, (b - 1) as usize)) } else { None }
        }
    } else {
        None
    }
}

/// Parses the integer literal at `pos` of a count range.
fn range_bound(toks: &Vec<DslToken>, pos: usize) -> (r: Result<usize, String>)
    ensures
        r is Ok <==> usize_at(token_views(toks@), pos as int) is Some,
        r matches Ok(v) ==> usize_at(token_views(toks@), pos as int) == Some(v),
        literal_at(token_views(toks@), pos as int) is None
            ==> (r matches Err(e) && e@ == "state range must use literal integers only"@),
{
    match peek_literal(toks, pos) {
        Some(text) => {
            if int_digits(text.as_str()).is_none() {
                return Err(String::from_str("state range must use literal integers only"));
            }
            parse_usize_literal(text.as_str())
        },
        None => Err(String::from_str("state range must use literal integers only")),
    }
}

/// Whether the tokens at `pos` are a string state declaration
/// `name: str("re");` whose expression parses and has no capturing group.
pub open spec fn str_declaration_at(tv: Seq<TokenView>, pos: int) -> bool {
    &&& ident_at(tv, pos) is Some
    &&& punct_at(tv, pos + 1, ':')
    &&& ident_at(tv, pos + 2) == Some("str"@)
    &&& group_at(tv, pos + 3) matches Some((d, g))
    &&& d == '('
    &&& g.len() == 1
    &&& string_at(g, 0) matches Some(re)
    &&& crate::dynamic::capture_free(re)
    &&& punct_at(tv, pos + 4, ';')
}

/// The expression of a string state declaration at `pos`: `name: str("re")`
/// with the one string literal in the parentheses.
pub open spec fn str_expression_at(tv: Seq<TokenView>, pos: int) -> Option<Seq<char>> {
    if ident_at(tv, pos) is Some && punct_at(tv, pos + 1, ':') && ident_at(tv, pos + 2) == Some("str"@)
        && group_at(tv, pos + 3) is Some && (group_at(tv, pos + 3)->0).0 == '('
        && (group_at(tv, pos + 3)->0).1.len() == 1 && string_at((group_at(tv, pos + 3)->0).1, 0) is Some {
        string_at((group_at(tv, pos + 3)->0).1, 0)
    } else {
        None
    }
}

/// The range of a count declaration at `pos`: the tokens in the parentheses
/// after `count`.
pub open spec fn count_group_at(tv: Seq<TokenView>, pos: int) -> Option<Seq<TokenView>> {
    if ident_at(tv, pos + 2) == Some("count"@) && group_at(tv, pos + 3) is Some && (group_at(tv, pos + 3)->0).0 == '(' {
        Some((group_at(tv, pos + 3)->0).1)
    } else {
        None
    }
}

/// The error a count range `g` gives where a bound is no literal, or the
/// bounds are literals that fit but are out of order.
pub open spec fn count_range_error(g: Seq<TokenView>) -> Option<Seq<char>> {
    let inclusive = punct_at(g, 3, '=');
    let q: int = if inclusive { 4 } else { 3 };
    if literal_at(g, 0) is None {
        Some("state range must use literal integers only"@)
    } else if usize_at(g, 0) is Some && punct2_at(g, 1, '.', '.') && literal_at(g, q) is None {
        Some("state range must use literal integers only"@)
    } else if usize_at(g, 0) is Some && punct2_at(g, 1, '.', '.') && usize_at(g, q) is Some && g.len() == q + 1 {
        let a = usize_at(g, 0)->0;
        let b = usize_at(g, q)->0;
        if inclusive && a > b {
            Some("state range must satisfy min <= max"@)
        } else if !inclusive && a >= b {
            Some("state range must satisfy min < max"@)
        } else {
            None
        }
    } else {
        None
    }
}

/// Parses a state declaration after `state` at `pos`: `name: count(a..b);`,
/// `name: count(a..=b);` or `name: str("re");`. An exclusive range ends one
/// below its bound; a string state's expression must have no capturing group.
pub fn parse_state_declaration(toks: &Vec<DslToken>, pos: usize, index: usize) -> (r: Result<(StateDeclaration, usize), String>)
    requires
        pos < usize::MAX - 5,
    ensures
        r matches Ok((d, p)) ==> p == pos + 5 && declaration_read(token_views(toks@), pos as int, index, d),
        ident_at(token_views(toks@), pos as int) is None ==> r is Err,
        (ident_at(token_views(toks@), pos as int + 2) == Some("count"@)
            && group_content_at(token_views(toks@), pos as int + 3) is Some
            && count_range_of(group_content_at(token_views(toks@), pos as int + 3)->0) is None) ==> r is Err,
        count_declaration_at(token_views(toks@), pos as int) ==> r is Ok,
        str_declaration_at(token_views(toks@), pos as int) ==> r is Ok,
        (str_expression_at(token_views(toks@), pos as int) is Some
            && !crate::dynamic::capture_free(str_expression_at(token_views(toks@), pos as int)->0))
            ==> (r matches Err(e) && e@ == crate::dynamic::capture_free_error(str_expression_at(token_views(toks@), pos as int)->0)),
        (ident_at(token_views(toks@), pos as int) is Some && punct_at(token_views(toks@), pos + 1, ':')
            && count_group_at(token_views(toks@), pos as int) is Some
            && count_range_error(count_group_at(token_views(toks@), pos as int)->0) is Some)
            ==> (r matches Err(e) && e@ == count_range_error(count_group_at(token_views(toks@), pos as int)->0)->0),
{
    proof {
        reveal_strlit("count");
        reveal_strlit("str");
        assert("count"@.len() == 5 && "str"@.len() == 3);
    }
    let name = match peek_ident(toks, pos) {
        Some(n) => n,
        None => {
            return Err(String::from_str("expected identifier `state_name`"));
        },
    };
    if !peek_punct(toks, pos + 1, ':') {
        return Err(String::from_str("expected `:`"));
    }
    let kind_name = match peek_ident(toks, pos + 2) {
        Some(n) => n,
        None => {
            return Err(String::from_str("expected identifier `state_type`"));
        },
    };
    let state_type = if same_text(kind_name.as_str(), "count") {
        let c = match group_tokens(toks, pos + 3, '(') {
            Ok(c) => c,
            Err(e) => {
                return Err(e);
            },
        };
        let min = match range_bound(&c, 0) {
            Ok(v) => v,
            Err(e) => {
                return Err(e);
            },
        };
        if !peek_punct2(&c, 1, '.', '.') {
            return Err(String::from_str("expected `..`"));
        }
        let inclusive = peek_punct(&c, 3, '=');
        let q: usize = if inclusive { 4 } else { 3 };
        let max = match range_bound(&c, q) {
            Ok(v) => v,
            Err(e) => {
                return Err(e);
            },
        };
        if c.len() != q + 1 {
            return Err(String::from_str("unexpected tokens in count state range"));
        }
        let max = if inclusive {
            if min > max {
                return Err(String::from_str("state range must satisfy min <= max"));
            }
            max
        } else {
            if min >= max {
                return Err(String::from_str("state range must satisfy min < max"));
            }
            max - 1
        };
        StateType::Count { min, max }
    } else if same_text(kind_name.as_str(), "str") {
        let c = match group_tokens(toks, pos + 3, '(') {
            Ok(c) => c,
            Err(e) => {
                return Err(e);
            },
        };
        let pattern = match peek_string(&c, 0) {
            Some(s) => s,
            None => {
                return Err(String::from_str("expected string literal"));
            },
        };
        if c.len() != 1 {
            return Err(String::from_str("str state takes exactly one regex pattern"));
        }
        match ensure_no_capturing_groups(pattern.as_str()) {
            Ok(()) => {},
            Err(e) => {
                return Err(e);
            },
        }
        StateType::Str { pattern }
    } else {
        return Err(String::from_str("expected 'count' or 'str'"));
    };
    if !peek_punct(toks, pos + 4, ';') {
        return Err(String::from_str("expected `;`"));
    }
    Ok((StateDeclaration { name, index, state_type }, pos + 5))
}

/// The transition `t` was read from `on T enter M;`, `on T push M;` or
/// `on T pop;` at `q`, ending at `end`.
pub open spec fn transition_read(g: Seq<TokenView>, q: int, t: TransitionToNamedMode, end: int) -> bool {
    &&& ident_at(g, q) == Some("on"@)
    &&& usize_at(g, q + 1) is Some
    &&& match t {
        TransitionToNamedMode::SetMode(tt, m) => tt == usize_at(g, q + 1)->0 && ident_at(g, q + 2) == Some("enter"@)
            && ident_at(g, q + 3) == Some(m@) && punct_at(g, q + 4, ';') && end == q + 5,
        TransitionToNamedMode::PushMode(tt, m) => tt == usize_at(g, q + 1)->0 && ident_at(g, q + 2) == Some("push"@)
            && ident_at(g, q + 3) == Some(m@) && punct_at(g, q + 4, ';') && end == q + 5,
        TransitionToNamedMode::PopMode(tt) => tt == usize_at(g, q + 1)->0 && ident_at(g, q + 2) == Some("pop"@)
            && punct_at(g, q + 3, ';') && end == q + 4,
    }
}

/// The pattern `pat` was read from `token ...;` at `q`, ending at `end`.
pub open spec fn token_item_read(g: Seq<TokenView>, q: int, pat: Pattern, end: int, dynamic_state: bool) -> bool {
    &&& ident_at(g, q) == Some("token"@)
    &&& pattern_read(g, q + 1, pat, end, dynamic_state)
}

/// The items of a mode's body from its start up to `q` are token patterns
/// giving `pats` and transitions giving `trans`, each in order.
pub open spec fn body_prefix(g: Seq<TokenView>, q: int, pats: Seq<Pattern>, trans: Seq<TransitionToNamedMode>, dynamic_state: bool) -> bool
    decreases pats.len() + trans.len(),
{
    if pats.len() == 0 && trans.len() == 0 {
        q == 0
    } else {
        exists|q0: int| #![trigger token_item_read(g, q0, pats.last(), q, dynamic_state)]
            #![trigger transition_read(g, q0, trans.last(), q)]
            0 <= q0 < q && (
            (pats.len() > 0 && token_item_read(g, q0, pats.last(), q, dynamic_state)
                && body_prefix(g, q0, pats.drop_last(), trans, dynamic_state))
            || (trans.len() > 0 && transition_read(g, q0, trans.last(), q)
                && body_prefix(g, q0, pats, trans.drop_last(), dynamic_state)))
    }
}

/// A token pattern item after the items read so far extends them.
proof fn lemma_body_extend_pattern(g: Seq<TokenView>, q: int, e: int, pats: Seq<Pattern>, trans: Seq<TransitionToNamedMode>,
    p: Pattern, dynamic_state: bool)
    requires
        0 <= q < e,
        body_prefix(g, q, pats, trans, dynamic_state),
        token_item_read(g, q, p, e, dynamic_state),
    ensures
        body_prefix(g, e, pats.push(p), trans, dynamic_state),
{
    let np = pats.push(p);
    assert(np.drop_last() =~= pats);
    assert(np.last() == p);
    assert(token_item_read(g, q, np.last(), e, dynamic_state));
}

/// A transition item after the items read so far extends them.
proof fn lemma_body_extend_transition(g: Seq<TokenView>, q: int, e: int, pats: Seq<Pattern>, trans: Seq<TransitionToNamedMode>,
    t: TransitionToNamedMode, dynamic_state: bool)
    requires
        0 <= q < e,
        body_prefix(g, q, pats, trans, dynamic_state),
        transition_read(g, q, t, e),
    ensures
        body_prefix(g, e, pats, trans.push(t), dynamic_state),
{
    let nt = trans.push(t);
    assert(nt.drop_last() =~= trans);
    assert(nt.last() == t);
    assert(transition_read(g, q, nt.last(), e));
}

/// The mode `m` was read from `mode NAME { ... }` at `pos`: its name is the
/// identifier and its patterns and transitions are those of the items of its
/// body, all of it.
pub open spec fn mode_read(tv: Seq<TokenView>, pos: int, m: ScannerModeWithNamedTransitions, dynamic_state: bool) -> bool {
    &&& ident_at(tv, pos) == Some("mode"@)
    &&& ident_at(tv, pos + 1) == Some(m.name@)
    &&& group_at(tv, pos + 2) matches Some((d, _)) && d == '{'
    &&& group_content_at(tv, pos + 2) is Some
    &&& body_prefix(group_content_at(tv, pos + 2)->0, group_content_at(tv, pos + 2)->0.len() as int,
        m.patterns@, m.transitions@, dynamic_state)
}

/// Whether the items of a mode's body from `q` to its end are simple: token
/// patterns `token "re" => n;`, with or without a lookahead condition whose
/// expression builds, and transitions `on n enter M;`,
/// `on n push M;` or `on n pop;`.
pub open spec fn simple_items_from(g: Seq<TokenView>, q: int) -> bool
    decreases g.len() - q,
{
    if q < 0 || q >= g.len() {
        q == g.len()
    } else if ident_at(g, q) == Some("token"@) {
        token_pattern_end(g, q + 1) is Some && q < token_pattern_end(g, q + 1)->0 <= g.len()
            && simple_items_from(g, token_pattern_end(g, q + 1)->0)
    } else if ident_at(g, q) == Some("on"@) && usize_at(g, q + 1) is Some {
        if (ident_at(g, q + 2) == Some("enter"@) || ident_at(g, q + 2) == Some("push"@)) && ident_at(g, q + 3) is Some
            && punct_at(g, q + 4, ';') {
            simple_items_from(g, q + 5)
        } else if ident_at(g, q + 2) == Some("pop"@) && punct_at(g, q + 3, ';') {
            simple_items_from(g, q + 4)
        } else {
            false
        }
    } else {
        false
    }
}

/// Whether the tokens at `pos` are a simple mode: `mode NAME { ... }` whose
/// body lexes, fits, and holds simple items only.
pub open spec fn simple_mode_at(tv: Seq<TokenView>, pos: int) -> bool {
    &&& ident_at(tv, pos) == Some("mode"@)
    &&& ident_at(tv, pos + 1) is Some
    &&& group_at(tv, pos + 2) matches Some((d, g))
    &&& d == '{'
    &&& g.len() < usize::MAX - 8
    &&& simple_items_from(g, 0)
}

/// Parses a scanner mode at `pos`: `mode NAME { ... }` holding token patterns
/// `token ...;` and transitions `on T enter M;`, `on T push M;` or `on T pop;`.
pub fn parse_mode(toks: &Vec<DslToken>, pos: usize, dynamic_state: bool) -> (r: Result<(ScannerModeWithNamedTransitions, usize), String>)
    requires
        pos < usize::MAX - 3,
    ensures
        r matches Ok((m, p)) ==> p == pos + 3 && mode_read(token_views(toks@), pos as int, m, dynamic_state),
        simple_mode_at(token_views(toks@), pos as int) ==> r is Ok,
{
    let ghost simple = simple_mode_at(token_views(toks@), pos as int);
    match peek_ident(toks, pos) {
        Some(n) => {
            if !same_text(n.as_str(), "mode") {
                return Err(String::from_str("expected 'mode'"));
            }
        },
        None => {
            return Err(String::from_str("expected identifier `mode`"));
        },
    }
    let name = match peek_ident(toks, pos + 1) {
        Some(n) => n,
        None => {
            return Err(String::from_str("expected identifier `mode_name`"));
        },
    };
    let body = match group_tokens(toks, pos + 2, '{') {
        Ok(b) => b,
        Err(e) => {
            return Err(e);
        },
    };
    let ghost g = token_views(body@);
    if body.len() >= usize::MAX - 8 {
        return Err(String::from_str("the mode is too long"));
    }
    let mut patterns: Vec<Pattern> = Vec::new();
    let mut transitions: Vec<TransitionToNamedMode> = Vec::new();
    let mut q: usize = 0;
    while q < body.len()
        invariant
            q <= body@.len(),
            body@.len() < usize::MAX - 8,
            g == token_views(body@),
            body_prefix(g, q as int, patterns@, transitions@, dynamic_state),
            simple == simple_mode_at(token_views(toks@), pos as int),
            simple ==> simple_items_from(g, q as int),
        decreases body@.len() - q,
    {
        let word = match peek_ident(&body, q) {
            Some(w) => w,
            None => {
                return Err(String::from_str("expected identifier `token_or_transition`"));
            },
        };
        if same_text(word.as_str(), "token") {
            match parse_pattern(&body, q + 1, dynamic_state) {
                Ok((pat, e)) => {
                    proof {
                        lemma_body_extend_pattern(g, q as int, e as int, patterns@, transitions@, pat, dynamic_state);
                    }
                    patterns.push(pat);
                    q = e;
                },
                Err(e) => {
                    return Err(e);
                },
            }
        } else if same_text(word.as_str(), "on") {
            let token_type = match peek_literal(&body, q + 1) {
                Some(text) => match parse_usize_literal(text.as_str()) {
                    Ok(v) => v,
                    Err(e) => {
                        return Err(e);
                    },
                },
                None => {
                    return Err(String::from_str("expected integer literal"));
                },
            };
            let kind = match peek_ident(&body, q + 2) {
                Some(k) => k,
                None => {
                    return Err(String::from_str("expected identifier `transition_kind`"));
                },
            };
            let mut e = q + 3;
            let t = if same_text(kind.as_str(), "enter") || same_text(kind.as_str(), "push") {
                proof {
                    reveal_strlit("enter");
                    reveal_strlit("push");
                    reveal_strlit("pop");
                    assert("pop"@.len() == 3 && "enter"@.len() == 5 && "push"@.len() == 4);
                }
                let new_mode = match peek_ident(&body, q + 3) {
                    Some(m) => m,
                    None => {
                        return Err(String::from_str("expected identifier `new_mode`"));
                    },
                };
                e = q + 4;
                if same_text(kind.as_str(), "enter") {
                    TransitionToNamedMode::SetMode(token_type, new_mode)
                } else {
                    TransitionToNamedMode::PushMode(token_type, new_mode)
                }
            } else if same_text(kind.as_str(), "pop") {
                TransitionToNamedMode::PopMode(token_type)
            } else {
                return Err(String::from_str("expected 'enter', 'push' or 'pop'"));
            };
            if !peek_punct(&body, e, ';') {
                return Err(String::from_str("expected ';'"));
            }
            proof {
                lemma_body_extend_transition(g, q as int, e + 1, patterns@, transitions@, t, dynamic_state);
            }
            transitions.push(t);
            q = e + 1;
        } else {
            return Err(String::from_str("expected 'token' or 'transition'"));
        }
    }
    Ok((ScannerModeWithNamedTransitions { name, patterns, transitions }, pos + 3))
}

/// The declared states have distinct names and their indices are their
/// positions.
pub open spec fn states_ok(states: Seq<StateDeclaration>) -> bool {
    &&& forall|i: int| 0 <= i < states.len() ==> (#[trigger] states[i]).index == i
    &&& forall|i: int, j: int| 0 <= i < j < states.len() ==> (#[trigger] states[i]).name@ != (#[trigger] states[j]).name@
    &&& forall|i: int| 0 <= i < states.len() ==> match (#[trigger] states[i]).state_type {
        StateType::Count { min, max } => min <= max,
        StateType::Str { .. } => true,
    }
}

/// The declaration `d` was read from `state ...;` at `q0`, ending at `q`.
pub open spec fn state_item_read(c: Seq<TokenView>, q0: int, d: StateDeclaration, q: int) -> bool {
    &&& ident_at(c, q0) == Some("state"@)
    &&& declaration_read(c, q0 + 1, d.index, d)
    &&& q == q0 + 6
}

/// The mode `m` was read from `mode ...` at `q0`, ending at `q`.
pub open spec fn mode_item_read(c: Seq<TokenView>, q0: int, m: ScannerModeWithNamedTransitions, q: int, dynamic_state: bool) -> bool {
    &&& mode_read(c, q0, m, dynamic_state)
    &&& q == q0 + 3
}

/// The items of a description's content from its start up to `q` are state
/// declarations giving `states` and modes giving `modes`, each in order.
pub open spec fn content_prefix(c: Seq<TokenView>, q: int, states: Seq<StateDeclaration>, modes: Seq<ScannerModeWithNamedTransitions>,
    dynamic_state: bool) -> bool
    decreases states.len() + modes.len(),
{
    if states.len() == 0 && modes.len() == 0 {
        q == 0
    } else {
        exists|q0: int| #![trigger state_item_read(c, q0, states.last(), q)]
            #![trigger mode_item_read(c, q0, modes.last(), q, dynamic_state)]
            0 <= q0 < q && (
            (states.len() > 0 && state_item_read(c, q0, states.last(), q)
                && content_prefix(c, q0, states.drop_last(), modes, dynamic_state))
            || (modes.len() > 0 && mode_item_read(c, q0, modes.last(), q, dynamic_state)
                && content_prefix(c, q0, states, modes.drop_last(), dynamic_state)))
    }
}

/// A state declaration after the items read so far extends them.
proof fn lemma_content_extend_state(c: Seq<TokenView>, q: int, e: int, states: Seq<StateDeclaration>,
    modes: Seq<ScannerModeWithNamedTransitions>, d: StateDeclaration, dynamic_state: bool)
    requires
        0 <= q < e,
        content_prefix(c, q, states, modes, dynamic_state),
        state_item_read(c, q, d, e),
    ensures
        content_prefix(c, e, states.push(d), modes, dynamic_state),
{
    let ns = states.push(d);
    assert(ns.drop_last() =~= states);
    assert(state_item_read(c, q, ns.last(), e));
}

/// A mode after the items read so far extends them.
proof fn lemma_content_extend_mode(c: Seq<TokenView>, q: int, e: int, states: Seq<StateDeclaration>,
    modes: Seq<ScannerModeWithNamedTransitions>, m: ScannerModeWithNamedTransitions, dynamic_state: bool)
    requires
        0 <= q < e,
        content_prefix(c, q, states, modes, dynamic_state),
        mode_item_read(c, q, m, e, dynamic_state),
    ensures
        content_prefix(c, e, states, modes.push(m), dynamic_state),
{
    let nm = modes.push(m);
    assert(nm.drop_last() =~= modes);
    assert(mode_item_read(c, q, nm.last(), e, dynamic_state));
}

/// Whether a declared state has the given name.
fn has_state(states: &Vec<StateDeclaration>, name: &String) -> (r: bool)
    ensures
        r == exists|i: int| 0 <= i < states@.len() && (#[trigger] states@[i]).name@ == name@,
{
    let mut i: usize = 0;
    while i < states.len()
        invariant
            i <= states@.len(),
            forall|k: int| 0 <= k < i ==> (#[trigger] states@[k]).name@ != name@,
        decreases states.len() - i,
    {
        if same_text(states[i].name.as_str(), name.as_str()) {
            return true;
        }
        i = i + 1;
    }
    false
}

/// The description `d` was read from the tokens `tv`: `NAME { ... }`, whose
/// content's items, all of them, give its state declarations (distinct, at
/// their indices) and its modes (at least one).
pub open spec fn description_read(tv: Seq<TokenView>, d: ScannerData, dynamic_state: bool) -> bool {
    &&& ident_at(tv, 0) == Some(d.name@)
    &&& group_at(tv, 1) matches Some((delim, _)) && delim == '{'
    &&& tv.len() == 2
    &&& d.modes@.len() > 0
    &&& states_ok(d.states@)
    &&& group_content_at(tv, 1) is Some
    &&& content_prefix(group_content_at(tv, 1)->0, group_content_at(tv, 1)->0.len() as int, d.states@, d.modes@, dynamic_state)
}

/// Whether the items of a description's content from `q` to its end are
/// simple modes, and (where runtime state is enabled) state declarations
/// `state name: count(..);` or `state name: str("re");` that parse and name
/// none of the states `names` declared before nor each other; `seen_mode`
/// tells whether a mode came before `q`, and one must come.
pub open spec fn simple_items_of(c: Seq<TokenView>, q: int, names: Seq<Seq<char>>, dynamic_state: bool, seen_mode: bool) -> bool
    decreases c.len() - q,
{
    if q < 0 || q >= c.len() {
        q == c.len() && seen_mode
    } else if ident_at(c, q) == Some("state"@) {
        &&& dynamic_state
        &&& (count_declaration_at(c, q + 1) || str_declaration_at(c, q + 1))
        &&& !names.contains(ident_at(c, q + 1)->0)
        &&& simple_items_of(c, q + 6, names.push(ident_at(c, q + 1)->0), dynamic_state, seen_mode)
    } else {
        simple_mode_at(c, q) && simple_items_of(c, q + 3, names, dynamic_state, true)
    }
}

/// Whether the tokens are a simple description: `NAME { ... }` whose content
/// fits and holds simple items only, one or more of them modes.
pub open spec fn simple_description(tv: Seq<TokenView>, dynamic_state: bool) -> bool {
    &&& tv.len() == 2
    &&& ident_at(tv, 0) is Some
    &&& group_at(tv, 1) matches Some((d, c))
    &&& d == '{'
    &&& c.len() < usize::MAX - 8
    &&& simple_items_of(c, 0, Seq::empty(), dynamic_state, false)
}

/// The names of the declared states.
pub open spec fn state_names(states: Seq<StateDeclaration>) -> Seq<Seq<char>> {
    states.map_values(|d: StateDeclaration| d.name@)
}

/// Parses a scanner description's tokens: `NAME { ... }` holding state
/// declarations `state ...;` (where runtime state is enabled) and scanner
/// modes, at least one mode, and no state declared twice.
pub fn parse_scanner_data_tokens(toks: &Vec<DslToken>, dynamic_state: bool) -> (r: Result<ScannerData, String>)
    ensures
        r matches Ok(d) ==> (!dynamic_state ==> d.states@.len() == 0),
        r matches Ok(d) ==> description_read(token_views(toks@), d, dynamic_state),
        simple_description(token_views(toks@), dynamic_state) ==> r is Ok,
{
    let ghost simple = simple_description(token_views(toks@), dynamic_state);
    proof {
        reveal_strlit("mode");
        reveal_strlit("state");
        assert("mode"@.len() == 4 && "state"@.len() == 5);
    }
    let name = match peek_ident(toks, 0) {
        Some(n) => n,
        None => {
            return Err(String::from_str("expected identifier `scanner_name`"));
        },
    };
    let content = match group_tokens(toks, 1, '{') {
        Ok(c) => c,
        Err(e) => {
            return Err(e);
        },
    };
    if toks.len() != 2 {
        return Err(String::from_str("unexpected token"));
    }
    if content.len() >= usize::MAX - 8 {
        return Err(String::from_str("the description is too long"));
    }
    let ghost cv = token_views(content@);
    let mut states: Vec<StateDeclaration> = Vec::new();
    let mut modes: Vec<ScannerModeWithNamedTransitions> = Vec::new();
    let mut q: usize = 0;
    assert(state_names(states@) =~= Seq::<Seq<char>>::empty());
    while q < content.len()
        invariant
            q <= content@.len(),
            content@.len() < usize::MAX - 8,
            states_ok(states@),
            !dynamic_state ==> states@.len() == 0,
            cv == token_views(content@),
            content_prefix(cv, q as int, states@, modes@, dynamic_state),
            simple == simple_description(token_views(toks@), dynamic_state),
            simple ==> (group_at(token_views(toks@), 1)->0).1 == cv
                && simple_items_of(cv, q as int, state_names(states@), dynamic_state, modes@.len() > 0),
            "mode"@.len() == 4 && "state"@.len() == 5,
        decreases content@.len() - q,
    {
        let word = match peek_ident(&content, q) {
            Some(w) => w,
            None => {
                return Err(String::from_str("expected identifier"));
            },
        };
        if same_text(word.as_str(), "state") {
            if !dynamic_state {
                return Err(String::from_str("state declarations require enabling the `dynamic-state` feature on scnr2"));
            }
            let (state, e) = match parse_state_declaration(&content, q + 1, states.len()) {
                Ok(x) => x,
                Err(e) => {
                    return Err(e);
                },
            };
            if has_state(&states, &state.name) {
                proof {
                    if simple {
                        let i = choose|i: int| 0 <= i < states@.len() && (#[trigger] states@[i]).name@ == state.name@;
                        assert(state_names(states@)[i] == state.name@);
                        assert(state_names(states@).contains(ident_at(cv, q + 1)->0));
                    }
                }
                let mut msg = String::from_str("state '");
                msg.append(state.name.as_str());
                msg.append("' is declared more than once");
                return Err(msg);
            }
            proof {
                lemma_content_extend_state(cv, q as int, e as int, states@, modes@, state, dynamic_state);
            }
            let ghost names0 = state_names(states@);
            states.push(state);
            proof {
                assert(state_names(states@) =~= names0.push(ident_at(cv, q + 1)->0));
            }
            q = e;
        } else if same_text(word.as_str(), "mode") {
            let (mode, e) = match parse_mode(&content, q, dynamic_state) {
                Ok(x) => x,
                Err(e) => {
                    return Err(e);
                },
            };
            proof {
                lemma_content_extend_mode(cv, q as int, e as int, states@, modes@, mode, dynamic_state);
            }
            modes.push(mode);
            q = e;
        } else {
            return Err(String::from_str("expected 'state' or 'mode'"));
        }
    }
    if modes.len() == 0 {
        return Err(String::from_str("expected at least one mode"));
    }
    Ok(ScannerData { name, states, modes })
}

/// Parses a scanner description from its text: the text is split into tokens
/// by the Rust lexer, then read by `parse_scanner_data_tokens`. The lexer's
/// tokens are not claimed to be a function of the text, so what is stated
/// holds of whatever tokens it gave: a description read from them.
pub fn parse_scanner_data_with(text: &str, dynamic_state: bool) -> (r: Result<ScannerData, String>)
    ensures
        r matches Ok(d) ==> exists|tv: Seq<TokenView>| #[trigger] description_read(tv, d, dynamic_state),
        r matches Ok(d) ==> (!dynamic_state ==> d.states@.len() == 0),
{
    match lex(text) {
        Some(toks) => parse_scanner_data_tokens(&toks, dynamic_state),
        None => Err(String::from_str("the scanner description does not lex")),
    }
}

/// Parses a scanner description from its text with runtime state enabled.
pub fn parse_scanner_data(text: &str) -> (r: Result<ScannerData, String>)
    ensures
        r matches Ok(d) ==> exists|tv: Seq<TokenView>| #[trigger] description_read(tv, d, true),
{
    parse_scanner_data_with(text, true)
}

} // verus!
