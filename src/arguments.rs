use vstd::prelude::*;

use crate::expect::{colon, comma_or_paren_close, identifier_or_paren_close};
use crate::lexer::{get_next_token, last_char_of, SourceToken};
use crate::names::NameMap;
use crate::parser::{Failure, File};
use crate::resolved_type::{parse_resolved_type, resolved_at};
use crate::span::Span;
use crate::statement::ResolvedType;
use crate::token::{Symbol, Token};

verus! {

/// A typed parameter list read from token `i` on, `prev` being the span of the token before
/// it and `acc` the parameters read so far: the parameters by name, a later one replacing an
/// earlier one of the same name, and the index just past the closing parenthesis; or the
/// failure message and span.
pub open spec fn argument_list(
    file: File,
    toks: Seq<SourceToken>,
    i: int,
    prev: Span,
    acc: Map<Seq<char>, ResolvedType>,
) -> Result<(Map<Seq<char>, ResolvedType>, int), (Seq<char>, Span)>
    decreases toks.len() - i,
{
    if i < 0 || i >= toks.len() {
        Err(("Expected identifier or closing parenthesis."@, last_char_of(prev)))
    } else if toks[i].token == Token::Symbol(Symbol::ParenClose) {
        Ok((acc, i + 1))
    } else if !(toks[i].token is Identifier) {
        Err(("Expected identifier or closing parenthesis."@, toks[i].span))
    } else if i + 1 >= toks.len() {
        Err(("Expected colon."@, last_char_of(toks[i].span)))
    } else if toks[i + 1].token != Token::Symbol(Symbol::Colon) {
        Err(("Expected colon."@, toks[i + 1].span))
    } else if i + 2 >= toks.len() {
        Err(("Expected type identifier."@, last_char_of(toks[i + 1].span)))
    } else if !(toks[i + 2].token is Identifier) {
        Err(("Expected type identifier."@, toks[i + 2].span))
    } else {
        let acc2 = acc.insert(toks[i].token->Identifier_0@, resolved_at(file, toks, i + 2));
        if i + 3 >= toks.len() {
            Err(("Expected comma or closing parenthesis."@, last_char_of(toks[i + 2].span)))
        } else if toks[i + 3].token == Token::Symbol(Symbol::ParenClose) {
            Ok((acc2, i + 4))
        } else if toks[i + 3].token == Token::Symbol(Symbol::Comma) {
            argument_list(file, toks, i + 4, toks[i + 3].span, acc2)
        } else {
            Err(("Expected comma or closing parenthesis."@, toks[i + 3].span))
        }
    }
}

/// Parse a set of argument definitions, or none if there aren't any, starting just after the
/// opening parenthesis at `starting_index`. Consumes the closing parenthesis.
///
/// Returns the arguments and the index just past the closing parenthesis.
pub fn parse_arguments<'a>(
    file: &File,
    tokens: &'a Vec<SourceToken>,
    starting_index: &usize,
    starting_token: &SourceToken,
) -> (r: Result<(NameMap<ResolvedType>, usize), Failure>)
    requires
        file.wf(),
        *starting_index < tokens@.len(),
    ensures
        match argument_list(*file, tokens@, *starting_index + 1, starting_token.span, Map::empty()) {
            Ok((args, n)) => r matches Ok((a, k)) && a.wf() && a@ == args && k == n,
            Err((msg, span)) => r matches Err(f) && f.message@ == msg && f.span == span,
        },
        r matches Ok((a, k)) ==> *starting_index + 1 < k <= tokens@.len(),
{
    let token_count = tokens.len();
    let mut next_index = *starting_index + 1;
    let mut previous_token: &SourceToken = starting_token;
    let mut arguments: NameMap<ResolvedType> = NameMap::new();
    let ghost goal = argument_list(*file, tokens@, *starting_index + 1, starting_token.span, Map::empty());

    loop
        invariant
            token_count == tokens@.len(),
            file.wf(),
            arguments.wf(),
            *starting_index < next_index <= token_count,
            goal == argument_list(*file, tokens@, *starting_index + 1, starting_token.span, Map::empty()),
            goal == argument_list(*file, tokens@, next_index as int, previous_token.span, arguments@),
        decreases token_count - next_index,
    {
        let (id_or_bracket, _) = get_next_token(
            tokens,
            next_index,
            previous_token,
            identifier_or_paren_close,
            "Expected identifier or closing parenthesis.".to_owned(),
        )?;
        let id_index = next_index;
        next_index = next_index + 1;
        previous_token = id_or_bracket;

        if let Token::Symbol(Symbol::ParenClose) = &id_or_bracket.token {
            return Ok((arguments, next_index));
        }

        let (colon_token, _) = get_next_token(tokens, next_index, previous_token, colon, "Expected colon.".to_owned())?;
        previous_token = colon_token;

        let (resolved_type, new_next_index) = parse_resolved_type(file, tokens, &next_index, previous_token)?;
        next_index = new_next_index;
        previous_token = &tokens[next_index - 1];

        if let Token::Identifier(id) = &id_or_bracket.token {
            arguments.insert(id.clone(), resolved_type);
        }

        // try for comma, let start of loop handle close
        let (comma_or_end, _) = get_next_token(
            tokens,
            next_index,
            previous_token,
            comma_or_paren_close,
            "Expected comma or closing parenthesis.".to_owned(),
        )?;
        next_index = next_index + 1;
        previous_token = comma_or_end;

        if let Token::Symbol(Symbol::ParenClose) = &comma_or_end.token {
            return Ok((arguments, next_index));
        }
        proof {
            assert(id_index < next_index);
        }
    }
}

} // verus!
