use vstd::prelude::*;

use crate::arguments::{argument_list, parse_arguments};
use crate::expect::{colon, failure_span, fn_keyword, identifier_name, paren_open, stalled};
use crate::expression::{parse_expression, statement_at, statement_of, Statement};
use crate::lexer::{get_next_token, SourceToken};
use crate::scan::blocks_valid;
use crate::parser::{Failure, File};
use crate::resolved_type::{parse_resolved_type, resolved_at};
use crate::span::Span;
use crate::statement::{DefinedFunction, Expression, Function, ResolvedType, Visibility};
use crate::token::{Keyword, Symbol, Token};

verus! {

/// What a function declaration holds, with its statements as trees.
pub struct FunctionShape {
    pub visibility: Visibility,
    pub visibility_span: Option<Span>,
    pub name: Seq<char>,
    pub name_span: Span,
    pub arguments: Map<Seq<char>, ResolvedType>,
    pub returns: ResolvedType,
    /// The index of the opening brace of the body.
    pub body_start: int,
    pub body: Seq<Statement>,
}

pub open spec fn statements_of(v: Seq<Expression>) -> Seq<Statement> {
    Seq::new(v.len(), |i: int| statement_of(v[i]))
}

/// The statements of a body from token `k` on, up to the closing brace at `end`, `acc` holding
/// those read so far; or the failure.
pub open spec fn body_at(file: File, toks: Seq<SourceToken>, k: int, end: int, acc: Seq<Statement>) -> Result<
    Seq<Statement>,
    (Seq<char>, Span),
>
    decreases end - k,
{
    if k < 0 || k + 1 >= end || k >= toks.len() {
        Ok(acc)
    } else {
        match statement_at(file, toks, k, toks[k].span) {
            Ok((st, n)) => {
                if k < n < end {
                    body_at(file, toks, n, end, acc.push(st))
                } else if k < n {
                    Ok(acc.push(st))
                } else {
                    Err(stalled())
                }
            },
            Err(f) => Err(f),
        }
    }
}

/// The function declaration at token `s` (`fn`, or `public` then `fn`), up to the opening brace
/// of its body: its shape with an empty body, or the failure.
pub open spec fn header_at(file: File, toks: Seq<SourceToken>, s: int) -> Result<FunctionShape, (Seq<char>, Span)> {
    if s < 0 || s >= toks.len() {
        Err(stalled())
    } else if toks[s].token != Token::Keyword(Keyword::Public) && toks[s].token != Token::Keyword(Keyword::Function) {
        Err(("Expected one of the following keywords: fn, public."@, toks[s].span))
    } else if toks[s].token == Token::Keyword(Keyword::Public) && !(s + 1 < toks.len() && toks[s + 1].token
        == Token::Keyword(Keyword::Function)) {
        Err(("Expected fn keyword."@, failure_span(toks, s + 1, toks[s].span)))
    } else {
        let public = toks[s].token == Token::Keyword(Keyword::Public);
        let j = if public {
            s + 2
        } else {
            s + 1
        };
        if !(j < toks.len() && toks[j].token is Identifier) {
            Err(("Expected function identifier."@, failure_span(toks, j, toks[j - 1].span)))
        } else if !(j + 1 < toks.len() && toks[j + 1].token == Token::Symbol(Symbol::ParenOpen)) {
            Err(("Expected opening parenthesis."@, failure_span(toks, j + 1, toks[j].span)))
        } else {
            match argument_list(file, toks, j + 2, toks[j + 1].span, Map::empty()) {
                Err(f) => Err(f),
                Ok((args, n)) => {
                    if !(0 < n <= toks.len()) {
                        Err(stalled())
                    } else if !(n < toks.len() && toks[n].token == Token::Symbol(Symbol::Colon)) {
                        Err(("Expected colon."@, failure_span(toks, n, toks[n - 1].span)))
                    } else if !(n + 1 < toks.len() && toks[n + 1].token is Identifier) {
                        Err(("Expected type identifier."@, failure_span(toks, n + 1, toks[n].span)))
                    } else if !file.code_blocks@.contains_key((n + 2) as usize) {
                        Err(("Expected opening brace."@, toks[n + 1].span))
                    } else {
                        Ok(
                            FunctionShape {
                                visibility: if public {
                                    Visibility::Public
                                } else {
                                    Visibility::Private
                                },
                                visibility_span: if public {
                                    Some(toks[s + 1].span)
                                } else {
                                    None
                                },
                                name: toks[j].token->Identifier_0@,
                                name_span: toks[j].span,
                                arguments: args,
                                returns: resolved_at(file, toks, n + 1),
                                body_start: n + 2,
                                body: Seq::empty(),
                            },
                        )
                    }
                },
            }
        }
    }
}

/// The whole function declaration at token `s`: its shape, or the failure.
pub open spec fn function_at(file: File, toks: Seq<SourceToken>, s: int) -> Result<FunctionShape, (Seq<char>, Span)> {
    match header_at(file, toks, s) {
        Err(f) => Err(f),
        Ok(h) => {
            let end = file.code_blocks@[h.body_start as usize].end as int;
            match body_at(file, toks, h.body_start, end, Seq::empty()) {
                Ok(body) => Ok(FunctionShape { body, ..h }),
                Err(f) => Err(f),
            }
        },
    }
}

/// `f` is the function that `shape` describes.
pub open spec fn function_is(f: Function, shape: FunctionShape) -> bool {
    &&& f matches Function::Regular(d)
    &&& d.identifier.0@ == shape.name
    &&& d.identifier.1 == shape.name_span
    &&& d.visibility == (shape.visibility, shape.visibility_span)
    &&& d.arguments.wf()
    &&& d.arguments@ == shape.arguments
    &&& d.returns == shape.returns
    &&& statements_of(d.expressions@) == shape.body
}

/// Parse a function declaration starting at its `fn` or `public` keyword, and record it in
/// `file` under its name, replacing any earlier one of that name.
///
/// Returns the index just past the closing brace of its body.
pub fn parse_function<'a>(
    file: &mut File,
    tokens: &'a Vec<SourceToken>,
    starting_index: &usize,
    starting_token: &SourceToken,
) -> (r: Result<usize, Failure>)
    requires
        old(file).wf(),
        *starting_index < tokens@.len(),
        *starting_token == tokens@[*starting_index as int],
        blocks_valid(tokens@, old(file).code_blocks@),
    ensures
        final(file).wf(),
        final(file).namespace == old(file).namespace,
        final(file).uses == old(file).uses,
        final(file).code_blocks == old(file).code_blocks,
        match function_at(*old(file), tokens@, *starting_index as int) {
            Ok(shape) => {
                &&& r matches Ok(k) && k == old(file).code_blocks@[shape.body_start as usize].end + 1
                &&& final(file).functions@ == old(file).functions@.insert(shape.name, final(file).functions@[shape.name])
                &&& function_is(final(file).functions@[shape.name], shape)
            },
            Err((msg, span)) => {
                &&& r matches Err(f) && f.message@ == msg && f.span == span
                &&& final(file).functions == old(file).functions
            },
        },
        r matches Ok(k) ==> *starting_index < k <= tokens@.len(),
{
    let token_count = tokens.len();
    let ghost toks = tokens@;
    let ghost s = *starting_index as int;
    let mut next_index = *starting_index + 1;

    // capture visibility and move on to the token after the fn keyword
    let visibility: (Visibility, Option<Span>) = match starting_token.token {
        // top-level function declarations can only be public or private, and private is implicit
        Token::Keyword(Keyword::Public) => {
            let (fn_token, _) = get_next_token(
                tokens,
                next_index,
                starting_token,
                fn_keyword,
                "Expected fn keyword.".to_owned(),
            )?;
            next_index = next_index + 1;
            (Visibility::Public, Some(fn_token.span))
        },
        Token::Keyword(Keyword::Function) => (Visibility::Private, None),
        _ => {
            return Err(
                Failure {
                    message: "Expected one of the following keywords: fn, public.".to_owned(),
                    span: starting_token.span,
                },
            );
        },
    };

    let (name, name_token) = get_next_token(
        tokens,
        next_index,
        &tokens[next_index - 1],
        identifier_name,
        "Expected function identifier.".to_owned(),
    )?;
    let identifier = (name.clone(), name_token.span);
    next_index = next_index + 1;

    let (paren_token, _) = get_next_token(
        tokens,
        next_index,
        name_token,
        paren_open,
        "Expected opening parenthesis.".to_owned(),
    )?;

    let (args, new_next_index) = parse_arguments(file, tokens, &next_index, paren_token)?;
    next_index = new_next_index;

    let (colon_token, _) = get_next_token(
        tokens,
        next_index,
        &tokens[next_index - 1],
        colon,
        "Expected colon.".to_owned(),
    )?;

    let (return_type, new_next_index) = parse_resolved_type(file, tokens, &next_index, colon_token)?;
    next_index = new_next_index;

    // the lexer matched every brace, so a code block registered at the next index stands in for
    // checking that an opening brace comes next
    let block_end = match file.code_blocks.get(&next_index) {
        Some(block) => block.end,
        None => {
            return Err(Failure { message: "Expected opening brace.".to_owned(), span: tokens[next_index - 1].span });
        },
    };

    let ghost header = header_at(*file, toks, s);
    let ghost body_goal = body_at(*file, toks, next_index as int, block_end as int, Seq::empty());
    let mut expressions: Vec<Expression> = Vec::new();
    assert(statements_of(expressions@) =~= Seq::<Statement>::empty());

    while next_index + 1 < block_end
        invariant_except_break
            next_index < block_end,
            body_goal == body_at(*file, toks, next_index as int, block_end as int, statements_of(expressions@)),
        invariant
            token_count == tokens@.len(),
            toks == tokens@,
            s == *starting_index,
            *file == *old(file),
            file.wf(),
            block_end < token_count,
            header == header_at(*file, toks, s),
            header is Ok,
            old(file).code_blocks@[header->Ok_0.body_start as usize].end == block_end,
            function_at(*old(file), toks, s) == match body_goal {
                Ok(body) => Ok(FunctionShape { body, ..header->Ok_0 }),
                Err(f) => Err(f),
            },
        ensures
            body_goal == Ok::<Seq<Statement>, (Seq<char>, Span)>(statements_of(expressions@)),
        decreases block_end - next_index,
    {
        let (expr, new_next_index) = match parse_expression(file, tokens, &next_index, &tokens[next_index]) {
            Ok(found) => found,
            Err(f) => {
                return Err(f);
            },
        };
        let ghost before = expressions@;
        expressions.push(expr);
        assert(statements_of(expressions@) =~= statements_of(before).push(statement_of(expr)));
        if new_next_index >= block_end {
            next_index = new_next_index;
            break;
        }
        next_index = new_next_index;
    }

    let new_function = DefinedFunction { identifier, visibility, arguments: args, expressions, returns: return_type };
    let key = name.clone();
    file.functions.insert(key, Function::Regular(new_function));

    Ok(block_end + 1)
}


proof fn lemma_argument_list_agrees(
    f1: File,
    f2: File,
    toks: Seq<SourceToken>,
    i: int,
    prev: Span,
    a1: Map<Seq<char>, ResolvedType>,
    a2: Map<Seq<char>, ResolvedType>,
)
    ensures
        (argument_list(f1, toks, i, prev, a1) is Ok) == (argument_list(f2, toks, i, prev, a2) is Ok),
        argument_list(f1, toks, i, prev, a1) is Ok ==> argument_list(f1, toks, i, prev, a1)->Ok_0.1 == argument_list(
            f2,
            toks,
            i,
            prev,
            a2,
        )->Ok_0.1,
        argument_list(f1, toks, i, prev, a1) is Err ==> argument_list(f1, toks, i, prev, a1) == argument_list(
            f2,
            toks,
            i,
            prev,
            a2,
        ),
    decreases toks.len() - i,
{
    if 0 <= i < toks.len() && toks[i].token != Token::Symbol(Symbol::ParenClose) && toks[i].token is Identifier
        && i + 3 < toks.len() && toks[i + 1].token == Token::Symbol(Symbol::Colon) && toks[i + 2].token is Identifier
        && toks[i + 3].token == Token::Symbol(Symbol::Comma) {
        lemma_argument_list_agrees(
            f1,
            f2,
            toks,
            i + 4,
            toks[i + 3].span,
            a1.insert(toks[i].token->Identifier_0@, resolved_at(f1, toks, i + 2)),
            a2.insert(toks[i].token->Identifier_0@, resolved_at(f2, toks, i + 2)),
        );
    }
}

proof fn lemma_body_agrees(
    f1: File,
    f2: File,
    toks: Seq<SourceToken>,
    k: int,
    end: int,
    a1: Seq<Statement>,
    a2: Seq<Statement>,
)
    ensures
        (body_at(f1, toks, k, end, a1) is Ok) == (body_at(f2, toks, k, end, a2) is Ok),
        body_at(f1, toks, k, end, a1) is Err ==> body_at(f1, toks, k, end, a1) == body_at(f2, toks, k, end, a2),
    decreases end - k,
{
    if !(k < 0 || k + 1 >= end || k >= toks.len()) {
        let r1 = statement_at(f1, toks, k, toks[k].span);
        let r2 = statement_at(f2, toks, k, toks[k].span);
        assert((r1 is Ok) == (r2 is Ok));
        if r1 is Ok {
            assert(r1->Ok_0.1 == r2->Ok_0.1);
            let n = r1->Ok_0.1;
            if k < n < end {
                lemma_body_agrees(f1, f2, toks, n, end, a1.push(r1->Ok_0.0), a2.push(r2->Ok_0.0));
            }
        } else {
            assert(r1 == r2);
        }
    }
}

/// Whether a function declaration parses, where it fails, its name and where its body starts do
/// not depend on the uses a file holds, only on its code blocks.
pub proof fn lemma_function_agrees(f1: File, f2: File, toks: Seq<SourceToken>, s: int)
    requires
        f1.code_blocks@ == f2.code_blocks@,
    ensures
        (function_at(f1, toks, s) is Ok) == (function_at(f2, toks, s) is Ok),
        function_at(f1, toks, s) is Err ==> function_at(f1, toks, s) == function_at(f2, toks, s),
        function_at(f1, toks, s) is Ok ==> {
            &&& function_at(f1, toks, s)->Ok_0.name == function_at(f2, toks, s)->Ok_0.name
            &&& function_at(f1, toks, s)->Ok_0.body_start == function_at(f2, toks, s)->Ok_0.body_start
        },
{
    if 0 <= s < toks.len() && (toks[s].token == Token::Keyword(Keyword::Public) || toks[s].token == Token::Keyword(
        Keyword::Function,
    )) {
        let public = toks[s].token == Token::Keyword(Keyword::Public);
        let j = if public {
            s + 2
        } else {
            s + 1
        };
        lemma_argument_list_agrees(f1, f2, toks, j + 2, toks[j + 1].span, Map::empty(), Map::empty());
        let h1 = header_at(f1, toks, s);
        let h2 = header_at(f2, toks, s);
        assert((h1 is Ok) == (h2 is Ok));
        if h1 is Ok {
            assert(h1->Ok_0.body_start == h2->Ok_0.body_start);
            let end = f1.code_blocks@[h1->Ok_0.body_start as usize].end as int;
            lemma_body_agrees(f1, f2, toks, h1->Ok_0.body_start, end, Seq::empty(), Seq::empty());
        } else {
            assert(h1 == h2);
        }
    }
}

} // verus!
