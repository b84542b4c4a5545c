use vstd::prelude::*;

use crate::expect::identifier_or_end;
use crate::lexer::{get_next_token, last_char_of, SourceToken};
use crate::parser::{Failure, File};
use crate::span::Span;
use crate::statement::{joined, ToTypeReference, Use};
use crate::token::{Symbol, Token};

verus! {

/// The dotted path of a use statement read from token `i` on: the path segments, the span of
/// the last one and the index just past the terminating `;`; or the failure message and span.
/// `prev` is the span of the token before `i`, `parts` and `last` what was read so far.
pub open spec fn use_path(
    toks: Seq<SourceToken>,
    i: int,
    prev: Span,
    parts: Seq<Seq<char>>,
    last: Span,
) -> Result<(Seq<Seq<char>>, Span, int), (Seq<char>, Span)>
    decreases toks.len() - i,
{
    if i < 0 || i >= toks.len() {
        Err(("Expected an identifier."@, last_char_of(prev)))
    } else {
        match toks[i].token {
            Token::End => {
                if parts.len() == 0 {
                    Err(("At least one identifier must be provided in a use statement."@, toks[i].span))
                } else {
                    Ok((parts, last, i + 1))
                }
            },
            Token::Identifier(id) => {
                if i + 1 < toks.len() && toks[i + 1].token == Token::Symbol(Symbol::Period) {
                    use_path(toks, i + 2, toks[i + 1].span, parts.push(id@), toks[i].span)
                } else {
                    use_path(toks, i + 1, toks[i].span, parts.push(id@), toks[i].span)
                }
            },
            _ => Err(("Expected an identifier."@, toks[i].span)),
        }
    }
}

/// Parse a "use" statement, assuming that the "use" keyword itself has already been provided.
///
/// ## Examples of parseable data
/// * `Foo;`
/// * `Foo.Bar.Baz;`
///
/// On success the use is recorded in `file` under its last path segment, spanning from the
/// keyword to that segment, and the index just past the `;` is returned.
pub fn parse_use<'a>(
    file: &mut File,
    tokens: &'a Vec<SourceToken>,
    starting_index: &usize,
    starting_token: &SourceToken,
) -> (r: Result<usize, Failure>)
    requires
        old(file).wf(),
        *starting_index < tokens@.len(),
    ensures
        final(file).wf(),
        final(file).namespace == old(file).namespace,
        final(file).functions == old(file).functions,
        final(file).code_blocks == old(file).code_blocks,
        match use_path(tokens@, *starting_index + 1, starting_token.span, seq![], starting_token.span) {
            Ok((parts, last, n)) => {
                let key = parts.last();
                &&& r matches Ok(k) && k == n
                &&& final(file).uses@ == old(file).uses@.insert(key, final(file).uses@[key])
                &&& final(file).uses@[key].identifier@ == joined(parts)
                &&& final(file).uses@[key].span == (Span { start: starting_token.span.start, end: last.end })
            },
            Err((msg, span)) => {
                &&& r matches Err(f) && f.message@ == msg && f.span == span
                &&& final(file).uses == old(file).uses
            },
        },
        r matches Ok(k) ==> *starting_index < k <= tokens@.len(),
{
    let mut identifiers: Vec<&str> = Vec::new();
    let mut last_span = starting_token.span;
    let mut previous_span = starting_token.span;
    let n_tokens = tokens.len();
    let mut next_index: usize = *starting_index + 1;
    assert(identifiers@.map_values(|s: &str| s@) =~= Seq::<Seq<char>>::empty());
    let ghost goal = use_path(tokens@, *starting_index + 1, starting_token.span, seq![], starting_token.span);

    // we'll either run out of input, encounter a bad token, or reach the success case
    loop
        invariant
            goal == use_path(tokens@, *starting_index + 1, starting_token.span, seq![], starting_token.span),
            goal == use_path(tokens@, next_index as int, previous_span, identifiers@.map_values(|s: &str| s@), last_span),
            *starting_index < next_index <= tokens@.len() + 1,
            file.wf(),
            file.namespace == old(file).namespace,
            file.uses == old(file).uses,
            file.functions == old(file).functions,
            file.code_blocks == old(file).code_blocks,
            n_tokens == tokens@.len(),
        decreases tokens@.len() + 1 - next_index,
    {
        let ghost parts = identifiers@.map_values(|s: &str| s@);
        let (immediate_next, _) = match get_next_token(
            tokens,
            next_index,
            &SourceToken { token: Token::End, span: previous_span },
            identifier_or_end,
            "Expected an identifier.".to_owned(),
        ) {
            Ok(found) => found,
            Err(f) => {
                return Err(f);
            },
        };

        assert(next_index < tokens@.len());
        match &immediate_next.token {
            Token::End => {
                if identifiers.len() == 0 {
                    return Err(
                        Failure {
                            message: "At least one identifier must be provided in a use statement.".to_owned(),
                            span: immediate_next.span,
                        },
                    );
                }
                let new_use = Use {
                    identifier: identifiers.as_type_reference(),
                    span: Span { start: starting_token.span.start, end: last_span.end },
                };
                let key = identifiers[identifiers.len() - 1].to_owned();
                proof {
                    assert(parts.last() == identifiers@[identifiers@.len() - 1]@);
                }
                file.uses.insert(key, new_use);
                return Ok(next_index + 1);
            },
            Token::Identifier(identifier) => {
                identifiers.push(identifier.as_str());
                proof {
                    assert(identifiers@.map_values(|s: &str| s@) =~= parts.push(identifier@));
                }
                last_span = immediate_next.span;
                previous_span = immediate_next.span;
            },
            _ => {
                proof {
                    assert(false);
                }
            },
        }

        next_index = next_index + 1;
        // a period continues the path; anything else is left to the identifier/end check above
        if next_index < tokens.len() {
            if let Token::Symbol(Symbol::Period) = tokens[next_index].token {
                previous_span = tokens[next_index].span;
                next_index = next_index + 1;
            }
        }
    }
}

} // verus!
