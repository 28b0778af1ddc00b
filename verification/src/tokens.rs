//! The tokens of a scanner description: identifiers, punctuation, literals
//! and delimited groups, as the Rust lexer splits the description's text.
use vstd::prelude::*;
use proc_macro2::{Delimiter, Spacing, TokenStream, TokenTree};

verus! {

/// A token of a scanner description.
pub enum DslToken {
    /// An identifier.
    Ident(String),
    /// A punctuation character, and whether it is joined to the next one.
    Punct(char, bool),
    /// A literal, by its text as written.
    Literal(String),
    /// A delimited group: its opening delimiter (`(`, `{`, `[`, or a space for
    /// an invisible group) and the tokens of its content.
    Group(char, Vec<DslToken>),
}

/// A token by its characters, a group by the views of its tokens.
pub enum TokenView {
    Ident(Seq<char>),
    Punct(char, bool),
    Literal(Seq<char>),
    Group(char, Seq<TokenView>),
}

/// The view of a token.
pub open spec fn token_view(t: DslToken) -> TokenView
    decreases t,
{
    match t {
        DslToken::Ident(s) => TokenView::Ident(s@),
        DslToken::Punct(c, j) => TokenView::Punct(c, j),
        DslToken::Literal(s) => TokenView::Literal(s@),
        DslToken::Group(d, v) => TokenView::Group(d, Seq::new(v@.len(), |i: int|
            if 0 <= i < v@.len() {
                token_view(v@[i])
            } else {
                TokenView::Punct(' ', false)
            })),
    }
}

/// The views of tokens.
pub open spec fn token_views(ts: Seq<DslToken>) -> Seq<TokenView> {
    ts.map_values(|t: DslToken| token_view(t))
}

/// The value of a string literal as `syn` reads it (escapes resolved, raw
/// strings taken as written), or `None` where the text is no string literal.
pub uninterp spec fn string_literal_value(text: Seq<char>) -> Option<Seq<char>>;

/// The decimal digits of an integer literal as `syn` gives them (in base 10,
/// without separators or suffix), or `None` where the text is no integer
/// literal.
pub uninterp spec fn int_literal_digits(text: Seq<char>) -> Option<Seq<char>>;

#[verifier::external_type_specification]
#[verifier::external_body]
pub struct ExTokenStream(TokenStream);

/// Splits a text into token trees with `proc_macro2`'s
/// `TokenStream::from_str`; `None` where it reports a lexing error.
/// Nothing is claimed of the result: it may differ between a procedural
/// macro and other programs. `proc_macro2` documents that some malformed
/// texts make it panic instead of failing, without saying which; no
/// precondition can keep those texts out.
#[verifier::external_body]
fn token_stream(text: &str) -> (r: Option<TokenStream>) {
    text.parse().ok()
}

/// The tokens of a stream of token trees, each tree taken apart into a
/// token, a group with the tokens of its own stream (`proc_macro2`'s
/// `TokenStream::into_iter`, `Group::stream`). Nothing is claimed of them.
#[verifier::external_body]
fn tokens_of_stream(stream: TokenStream) -> (r: Vec<DslToken>) {
    stream.into_iter().map(|tree| match tree {
        TokenTree::Group(g) => DslToken::Group(match g.delimiter() {
            Delimiter::Parenthesis => '(', Delimiter::Brace => '{', Delimiter::Bracket => '[', Delimiter::None => ' ',
        }, tokens_of_stream(g.stream())),
        TokenTree::Ident(i) => DslToken::Ident(i.to_string()),
        TokenTree::Punct(p) => DslToken::Punct(p.as_char(), p.spacing() == Spacing::Joint),
        TokenTree::Literal(l) => DslToken::Literal(l.to_string()),
    }).collect()
}

/// The tokens of a stream of token trees, such as the input of a procedural
/// macro. Nothing is claimed of them.
pub fn tokens_of(stream: TokenStream) -> (r: Vec<DslToken>) {
    tokens_of_stream(stream)
}

/// Splits a text into its tokens with the Rust lexer of `proc_macro2`, or
/// `None` where it does not lex. What the lexer gives depends on where it
/// runs (inside a procedural macro or not), so nothing is claimed of the
/// tokens.
pub fn lex(text: &str) -> (r: Option<Vec<DslToken>>) {
    match token_stream(text) {
        Some(stream) => Some(tokens_of_stream(stream)),
        None => None,
    }
}

/// The value of a string literal, by `syn::LitStr::value` after
/// `syn::parse_str`. `syn::parse_str` lexes the text with `proc_macro2`,
/// which is documented to panic on some malformed texts without saying which;
/// no precondition can keep those texts out.
#[verifier::external_body]
pub(crate) fn string_value(text: &str) -> (r: Option<String>)
    ensures
        r is Some <==> string_literal_value(text@) is Some,
        r matches Some(v) ==> string_literal_value(text@) == Some(v@),
{
    match syn::parse_str::<syn::LitStr>(text) {
        Ok(lit) => Some(lit.value()),
        Err(_) => None,
    }
}

/// The decimal digits of an integer literal, by `syn::LitInt::base10_digits`
/// after `syn::parse_str`. `syn::parse_str` lexes the text with `proc_macro2`,
/// which is documented to panic on some malformed texts without saying which;
/// no precondition can keep those texts out.
#[verifier::external_body]
pub(crate) fn int_digits(text: &str) -> (r: Option<String>)
    ensures
        r is Some <==> int_literal_digits(text@) is Some,
        r matches Some(v) ==> int_literal_digits(text@) == Some(v@),
{
    match syn::parse_str::<syn::LitInt>(text) {
        Ok(lit) => Some(lit.base10_digits().to_string()),
        Err(_) => None,
    }
}

} // verus!
