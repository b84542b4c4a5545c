use vstd::prelude::*;

use crate::expect::{failure_span, identifier_name};
use crate::lexer::{get_next_token, SourceToken};
use crate::parser::{Failure, File};
use crate::statement::ResolvedType;

verus! {

/// The namespace a type named `id` belongs to in `file`: the path of the use that brought the
/// name in, or else the file's own namespace.
pub open spec fn namespace_of(file: File, id: Seq<char>) -> Seq<char> {
    if file.uses@.contains_key(id) {
        file.uses@[id].identifier@
    } else {
        file.namespace@
    }
}

/// The type that the identifier token at `i` names, resolved in `file`.
pub open spec fn resolved_at(file: File, toks: Seq<SourceToken>, i: int) -> ResolvedType
    recommends
        0 <= i < toks.len(),
        toks[i].token is Identifier,
{
    let id = toks[i].token->Identifier_0;
    ResolvedType {
        namespace: if file.uses@.contains_key(id@) {
            file.uses@[id@].identifier
        } else {
            file.namespace
        },
        identifier: (id, Some(toks[i].span)),
    }
}

/// Parse a referenced type, the identifier just after `starting_index`.
///
/// ## Examples of parseable input
/// * `Foo`
///
/// Returns the type with the index just past it.
pub fn parse_resolved_type<'a>(
    file: &File,
    tokens: &'a Vec<SourceToken>,
    starting_index: &usize,
    starting_token: &SourceToken,
) -> (r: Result<(ResolvedType, usize), Failure>)
    requires
        file.wf(),
        *starting_index < tokens@.len(),
    ensures
        match r {
            Ok((t, n)) => n == *starting_index + 2 && *starting_index + 1 < tokens@.len() && tokens@[*starting_index + 1].token is Identifier && t == resolved_at(*file, tokens@, *starting_index + 1),
            Err(f) => {
                &&& !(*starting_index + 1 < tokens@.len() && tokens@[*starting_index + 1].token is Identifier)
                &&& f.message@ == "Expected type identifier."@
                &&& f.span == failure_span(tokens@, *starting_index + 1, starting_token.span)
            },
        },
        (*starting_index + 1 < tokens@.len() && tokens@[*starting_index + 1].token is Identifier) ==> r is Ok,
{
    let token_count = tokens.len();
    let next_index = *starting_index + 1;
    let (identifier, identifier_token) = get_next_token(
        tokens,
        next_index,
        starting_token,
        identifier_name,
        "Expected type identifier.".to_owned(),
    )?;

    let namespace = match file.uses.get(identifier.as_str()) {
        Some(u) => u.identifier.clone(),
        None => file.namespace.clone(),
    };
    let resolved = ResolvedType {
        namespace,
        identifier: (identifier.clone(), Some(identifier_token.span)),
    };

    assert(next_index < token_count);
    Ok((resolved, next_index + 1))
}

} // verus!
