use vstd::prelude::*;

use crate::lexer::{last_char_of, SourceToken};
use crate::span::{Location, Span};
use crate::token::{Keyword, Symbol, Token};

verus! {

/// Accepts any token.
pub fn any_token<'a>(t: &'a SourceToken) -> (r: Result<&'a SourceToken, Option<&'a SourceToken>>)
    ensures
        r == Ok::<&'a SourceToken, Option<&'a SourceToken>>(t),
{
    Ok(t)
}

/// Accepts the symbol `s` alone.
pub open spec fn accepts_symbol<'a>(t: &'a SourceToken, s: Symbol, r: Result<&'a SourceToken, Option<&'a SourceToken>>) -> bool {
    &&& t.token == Token::Symbol(s) ==> r == Ok::<&'a SourceToken, Option<&'a SourceToken>>(t)
    &&& t.token != Token::Symbol(s) ==> r == Err::<&'a SourceToken, Option<&'a SourceToken>>(Some(t))
}

fn symbol_matches(t: &SourceToken, s: Symbol) -> (r: bool)
    ensures
        r == (t.token == Token::Symbol(s)),
{
    match t.token {
        Token::Symbol(found) => found == s,
        _ => false,
    }
}

/// Accepts a colon.
pub fn colon<'a>(t: &'a SourceToken) -> (r: Result<&'a SourceToken, Option<&'a SourceToken>>)
    ensures
        accepts_symbol(t, Symbol::Colon, r),
{
    if symbol_matches(t, Symbol::Colon) {
        Ok(t)
    } else {
        Err(Some(t))
    }
}

/// Accepts an equal sign.
pub fn equal_sign<'a>(t: &'a SourceToken) -> (r: Result<&'a SourceToken, Option<&'a SourceToken>>)
    ensures
        accepts_symbol(t, Symbol::Equal, r),
{
    if symbol_matches(t, Symbol::Equal) {
        Ok(t)
    } else {
        Err(Some(t))
    }
}

/// Accepts an opening parenthesis.
pub fn paren_open<'a>(t: &'a SourceToken) -> (r: Result<&'a SourceToken, Option<&'a SourceToken>>)
    ensures
        accepts_symbol(t, Symbol::ParenOpen, r),
{
    if symbol_matches(t, Symbol::ParenOpen) {
        Ok(t)
    } else {
        Err(Some(t))
    }
}

/// Accepts the `fn` keyword.
pub fn fn_keyword<'a>(t: &'a SourceToken) -> (r: Result<&'a SourceToken, Option<&'a SourceToken>>)
    ensures
        t.token == Token::Keyword(Keyword::Function) ==> r == Ok::<&'a SourceToken, Option<&'a SourceToken>>(t),
        t.token != Token::Keyword(Keyword::Function) ==> r == Err::<&'a SourceToken, Option<&'a SourceToken>>(Some(t)),
{
    match t.token {
        Token::Keyword(Keyword::Function) => Ok(t),
        _ => Err(Some(t)),
    }
}

/// Accepts an identifier or the end of a statement.
pub fn identifier_or_end<'a>(t: &'a SourceToken) -> (r: Result<&'a SourceToken, Option<&'a SourceToken>>)
    ensures
        t.token is Identifier || t.token is End ==> r == Ok::<&'a SourceToken, Option<&'a SourceToken>>(t),
        !(t.token is Identifier || t.token is End) ==> r == Err::<&'a SourceToken, Option<&'a SourceToken>>(Some(t)),
{
    match t.token {
        Token::Identifier(_) | Token::End => Ok(t),
        _ => Err(Some(t)),
    }
}

/// Accepts an identifier or a closing parenthesis.
pub fn identifier_or_paren_close<'a>(t: &'a SourceToken) -> (r: Result<&'a SourceToken, Option<&'a SourceToken>>)
    ensures
        t.token is Identifier || t.token == Token::Symbol(Symbol::ParenClose) ==> r == Ok::<
            &'a SourceToken,
            Option<&'a SourceToken>,
        >(t),
        !(t.token is Identifier || t.token == Token::Symbol(Symbol::ParenClose)) ==> r == Err::<
            &'a SourceToken,
            Option<&'a SourceToken>,
        >(Some(t)),
{
    match t.token {
        Token::Identifier(_) => Ok(t),
        Token::Symbol(Symbol::ParenClose) => Ok(t),
        _ => Err(Some(t)),
    }
}

/// Accepts a comma or a closing parenthesis.
pub fn comma_or_paren_close<'a>(t: &'a SourceToken) -> (r: Result<&'a SourceToken, Option<&'a SourceToken>>)
    ensures
        t.token == Token::Symbol(Symbol::Comma) || t.token == Token::Symbol(Symbol::ParenClose) ==> r == Ok::<
            &'a SourceToken,
            Option<&'a SourceToken>,
        >(t),
        !(t.token == Token::Symbol(Symbol::Comma) || t.token == Token::Symbol(Symbol::ParenClose)) ==> r == Err::<
            &'a SourceToken,
            Option<&'a SourceToken>,
        >(Some(t)),
{
    match t.token {
        Token::Symbol(Symbol::Comma) => Ok(t),
        Token::Symbol(Symbol::ParenClose) => Ok(t),
        _ => Err(Some(t)),
    }
}

/// Accepts the end of a statement.
pub fn statement_end<'a>(t: &'a SourceToken) -> (r: Result<(), Option<&'a SourceToken>>)
    ensures
        t.token is End ==> r == Ok::<(), Option<&'a SourceToken>>(()),
        !(t.token is End) ==> r == Err::<(), Option<&'a SourceToken>>(Some(t)),
{
    match t.token {
        Token::End => Ok(()),
        _ => Err(Some(t)),
    }
}


/// Accepts an identifier, handing out its name.
pub fn identifier_name<'a>(t: &'a SourceToken) -> (r: Result<&'a String, Option<&'a SourceToken>>)
    ensures
        t.token is Identifier ==> (r matches Ok(name) && t.token == Token::Identifier(*name)),
        !(t.token is Identifier) ==> r == Err::<&'a String, Option<&'a SourceToken>>(Some(t)),
{
    match &t.token {
        Token::Identifier(id) => Ok(id),
        _ => Err(Some(t)),
    }
}

/// The span a failure is given where the token at `i` is not the one expected: that token's
/// own, or the one just after `prev` where the input ran out.
pub open spec fn failure_span(toks: Seq<SourceToken>, i: int, prev: Span) -> Span {
    if 0 <= i < toks.len() {
        toks[i].span
    } else {
        last_char_of(prev)
    }
}


/// The failure a spec parse gives where an index it relies on went backwards; a parse never
/// does so.
pub open spec fn stalled() -> (Seq<char>, Span) {
    (Seq::empty(), Span { start: Location { col: 0, row: 0 }, end: Location { col: 0, row: 0 } })
}

} // verus!
