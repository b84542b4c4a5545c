use vstd::prelude::*;

use crate::expect::{any_token, colon, equal_sign, failure_span, identifier_name, statement_end};
use crate::lexer::{get_next_token, last_char_of, SourceToken};
use crate::parser::{Failure, File};
use crate::resolved_type::{parse_resolved_type, resolved_at};
use crate::span::Span;
use crate::statement::{Expression, ResolvedType, VariableDeclaration};
use crate::sub_expression::{parse_sub_expression, sub_expression_at, Precedence};
use crate::token::{Keyword, Symbol, Token};
use crate::tree::{tree_of, ExprTree};

verus! {

/// What a statement of a function body holds, with its sub-expressions as trees.
pub enum Statement {
    Declaration(Seq<char>, Span, ResolvedType, ExprTree),
    Return(ExprTree),
    Bare(ExprTree),
}

pub open spec fn statement_of(e: Expression) -> Statement {
    match e {
        Expression::VariableDeclaration(d) => Statement::Declaration(
            d.identifier.0@,
            d.identifier.1,
            d.variable_type,
            tree_of(d.value),
        ),
        Expression::Return(x) => Statement::Return(tree_of(x)),
        Expression::SubExpression(x) => Statement::Bare(tree_of(x)),
    }
}

/// The declaration `name: Type = value` that starts just after token `s` (the `let`), `prev`
/// being the span of token `s`: the name, its span, its type, the value and the index just past
/// it; or the failure.
pub open spec fn declaration_at(file: File, toks: Seq<SourceToken>, s: int, prev: Span) -> Result<
    (Seq<char>, Span, ResolvedType, ExprTree, int),
    (Seq<char>, Span),
> {
    let i = s + 1;
    if i < 0 || i >= toks.len() {
        Err(("Expected variable identifier."@, last_char_of(prev)))
    } else if !(toks[i].token is Identifier) {
        Err(("Expected variable identifier."@, toks[i].span))
    } else if i + 1 >= toks.len() {
        Err(("Expected colon."@, last_char_of(toks[i].span)))
    } else if toks[i + 1].token != Token::Symbol(Symbol::Colon) {
        Err(("Expected colon."@, toks[i + 1].span))
    } else if i + 2 >= toks.len() {
        Err(("Expected type identifier."@, last_char_of(toks[i + 1].span)))
    } else if !(toks[i + 2].token is Identifier) {
        Err(("Expected type identifier."@, toks[i + 2].span))
    } else if i + 3 >= toks.len() {
        Err(("Expected equal symbol."@, last_char_of(toks[i + 2].span)))
    } else if toks[i + 3].token != Token::Symbol(Symbol::Equal) {
        Err(("Expected equal symbol."@, toks[i + 3].span))
    } else {
        match sub_expression_at(toks, i + 3, toks[i + 3].span, Precedence::Default) {
            Ok((value, n)) => Ok(
                (toks[i].token->Identifier_0@, toks[i].span, resolved_at(file, toks, i + 2), value, n),
            ),
            Err(f) => Err(f),
        }
    }
}

/// Parse a variable declaration, assuming the "let" keyword at `starting_index` has already
/// been parsed.
///
/// Returns the declaration and the index just past its value.
pub fn parse_variable_declaration<'a>(
    file: &File,
    tokens: &'a Vec<SourceToken>,
    starting_index: &usize,
    let_token: &SourceToken,
) -> (r: Result<(VariableDeclaration, usize), Failure>)
    requires
        file.wf(),
        *starting_index < tokens@.len(),
    ensures
        match declaration_at(*file, tokens@, *starting_index as int, let_token.span) {
            Ok((name, span, ty, value, n)) => r matches Ok((d, k)) && d.identifier.0@ == name && d.identifier.1
                == span && d.variable_type == ty && tree_of(d.value) == value && k == n,
            Err((msg, span)) => r matches Err(f) && f.message@ == msg && f.span == span,
        },
        r matches Ok((d, k)) ==> *starting_index + 5 < k <= tokens@.len(),
{
    let token_count = tokens.len();
    let mut next_index = *starting_index + 1;

    let (identifier, identifier_token) = get_next_token(
        tokens,
        next_index,
        let_token,
        identifier_name,
        "Expected variable identifier.".to_owned(),
    )?;
    next_index = next_index + 1;

    let (colon_token, _) = get_next_token(tokens, next_index, identifier_token, colon, "Expected colon.".to_owned())?;

    let (var_type, new_next_index) = parse_resolved_type(file, tokens, &next_index, colon_token)?;
    next_index = new_next_index;

    let (equal_token, _) = get_next_token(
        tokens,
        next_index,
        &tokens[next_index - 1],
        equal_sign,
        "Expected equal symbol.".to_owned(),
    )?;

    let (value, new_next_index) = parse_sub_expression(file, tokens, &next_index, equal_token, Precedence::Default)?;
    assert(new_next_index <= token_count);

    let variable_declaration = VariableDeclaration {
        identifier: (identifier.clone(), identifier_token.span),
        variable_type: var_type,
        value,
    };

    Ok((variable_declaration, new_next_index))
}

/// The statement terminator is required at `index`: `Ok` where it is there, else the failure.
pub open spec fn end_at(toks: Seq<SourceToken>, index: int, prev: Span) -> Result<(), (Seq<char>, Span)> {
    if 0 <= index < toks.len() && toks[index].token is End {
        Ok(())
    } else {
        Err(("Expected end of statement."@, failure_span(toks, index, prev)))
    }
}

/// The statement that starts just after token `s`, `prev` being the span of token `s`: what it
/// holds and the index of its terminating `;`, or the failure.
pub open spec fn statement_at(file: File, toks: Seq<SourceToken>, s: int, prev: Span) -> Result<
    (Statement, int),
    (Seq<char>, Span),
> {
    let i = s + 1;
    if s < 0 || i >= toks.len() {
        Err(("Expected an expression."@, last_char_of(prev)))
    } else if toks[i].token == Token::Keyword(Keyword::Let) {
        match declaration_at(file, toks, i, toks[i].span) {
            Ok((name, span, ty, value, n)) => match end_at(toks, n, toks[n - 1].span) {
                Ok(_) => Ok((Statement::Declaration(name, span, ty, value), n)),
                Err(f) => Err(f),
            },
            Err(f) => Err(f),
        }
    } else if toks[i].token == Token::Keyword(Keyword::Return) {
        match sub_expression_at(toks, i, toks[i].span, Precedence::Default) {
            Ok((value, n)) => match end_at(toks, n, toks[n - 1].span) {
                Ok(_) => Ok((Statement::Return(value), n)),
                Err(f) => Err(f),
            },
            Err(f) => Err(f),
        }
    } else {
        match sub_expression_at(toks, s, prev, Precedence::Default) {
            Ok((value, n)) => match end_at(toks, n, toks[n - 1].span) {
                Ok(_) => Ok((Statement::Bare(value), n)),
                Err(f) => Err(f),
            },
            Err(f) => Err(f),
        }
    }
}

/// Parse one statement of a function body: a variable declaration, a return, or a bare
/// sub-expression, each terminated by `;`.
///
/// Returns the statement and the index of its `;`.
pub fn parse_expression<'a>(
    file: &File,
    tokens: &'a Vec<SourceToken>,
    starting_index: &usize,
    starting_token: &SourceToken,
) -> (r: Result<(Expression, usize), Failure>)
    requires
        file.wf(),
        *starting_index < tokens@.len(),
    ensures
        match statement_at(*file, tokens@, *starting_index as int, starting_token.span) {
            Ok((st, n)) => r matches Ok((e, k)) && statement_of(e) == st && k == n,
            Err((msg, span)) => r matches Err(f) && f.message@ == msg && f.span == span,
        },
        r matches Ok((e, k)) ==> *starting_index + 1 < k < tokens@.len(),
{
    let token_count = tokens.len();
    let next_index = *starting_index + 1;

    let (next_token, _) = get_next_token(
        tokens,
        next_index,
        starting_token,
        any_token,
        "Expected an expression.".to_owned(),
    )?;

    if let Token::Keyword(Keyword::Let) = &next_token.token {
        let (variable_declaration, new_next_index) = parse_variable_declaration(file, tokens, &next_index, next_token)?;
        check_end(tokens, &new_next_index, &tokens[new_next_index - 1])?;
        return Ok((Expression::VariableDeclaration(variable_declaration), new_next_index));
    }

    if let Token::Keyword(Keyword::Return) = &next_token.token {
        let (sub_expression, new_next_index) = parse_sub_expression(file, tokens, &next_index, next_token, Precedence::Default)?;
        check_end(tokens, &new_next_index, &tokens[new_next_index - 1])?;
        return Ok((Expression::Return(sub_expression), new_next_index));
    }

    let (sub_expr, new_next_index) = parse_sub_expression(file, tokens, starting_index, starting_token, Precedence::Default)?;
    check_end(tokens, &new_next_index, &tokens[new_next_index - 1])?;
    Ok((Expression::SubExpression(sub_expr), new_next_index))
}

/// Require the statement terminator at `index`.
fn check_end(tokens: &Vec<SourceToken>, index: &usize, previous_token: &SourceToken) -> (r: Result<(), Failure>)
    ensures
        match end_at(tokens@, *index as int, previous_token.span) {
            Ok(_) => r is Ok,
            Err((msg, span)) => r matches Err(f) && f.message@ == msg && f.span == span,
        },
{
    match get_next_token(tokens, *index, previous_token, statement_end, "Expected end of statement.".to_owned()) {
        Ok(_) => Ok(()),
        Err(f) => Err(f),
    }
}

} // verus!
