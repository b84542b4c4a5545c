use vstd::prelude::*;
use vstd::string::*;

use crate::expect::{any_token, failure_span, stalled};
use crate::lexer::{get_next_token, last_char_of, token_is, SourceToken};
use crate::parser::{Failure, File};
use crate::span::Span;
use crate::statement::{Infix, Prefix, SubExpression};
use crate::text::push_char;
use crate::token::{symbol_char, Symbol, Token};
use crate::tree::{tree_of, ExprTree};

verus! {

/// Binding strength of operators, weakest first.
#[derive(Clone, Copy, Debug, PartialEq, Eq, Structural)]
pub enum Precedence {
    Default,
    Sum,
    Product,
    Prefix,
    Call,
}

pub open spec fn level_of(p: Precedence) -> u8 {
    match p {
        Precedence::Default => 0,
        Precedence::Sum => 3,
        Precedence::Product => 4,
        Precedence::Prefix => 6,
        Precedence::Call => 8,
    }
}

impl Precedence {
    /// The numeric binding strength: a larger level binds tighter.
    pub fn level(&self) -> (r: u8)
        ensures
            r == level_of(*self),
    {
        match self {
            Precedence::Default => 0,
            Precedence::Sum => 3,
            Precedence::Product => 4,
            Precedence::Prefix => 6,
            Precedence::Call => 8,
        }
    }
}

/// The precedence a token has when it follows an operand.
pub open spec fn precedence_of(t: Token) -> Precedence {
    match t {
        Token::Symbol(sym) => match sym {
            Symbol::Plus | Symbol::Minus => Precedence::Sum,
            Symbol::ForwardSlash | Symbol::Asterisk => Precedence::Product,
            Symbol::ParenOpen => Precedence::Call,
            _ => Precedence::Default,
        },
        _ => Precedence::Default,
    }
}

fn get_precedence(token: &Token) -> (r: Precedence)
    ensures
        r == precedence_of(*token),
{
    match token {
        Token::Symbol(sym) => match sym {
            Symbol::Plus | Symbol::Minus => Precedence::Sum,
            Symbol::ForwardSlash | Symbol::Asterisk => Precedence::Product,
            Symbol::ParenOpen => Precedence::Call,
            _ => Precedence::Default,
        },
        _ => Precedence::Default,
    }
}

pub open spec fn unknown_symbol(sym: Symbol) -> Seq<char> {
    "Unknown symbol '"@ + seq![symbol_char(sym)] + "'."@
}

fn unknown_symbol_message(sym: Symbol) -> (r: String)
    ensures
        r@ == unknown_symbol(sym),
{
    let mut message = "Unknown symbol '".to_owned();
    push_char(&mut message, sym.as_char());
    message.append("'.");
    message
}

/// The trees of a list of sub-expressions.
pub open spec fn trees_of(v: Seq<SubExpression>) -> Seq<ExprTree> {
    Seq::new(v.len(), |i: int| tree_of(v[i]))
}

/// The sub-expression that starts just after token `s`, parsed so that it takes no operator of
/// precedence `prec` or weaker: its tree and the index just past it, or the failure. `prev` is
/// the span of token `s`.
pub open spec fn sub_expression_at(toks: Seq<SourceToken>, s: int, prev: Span, prec: Precedence) -> Result<
    (ExprTree, int),
    (Seq<char>, Span),
>
    decreases toks.len() - s, 0int,
{
    let i = s + 1;
    if s < 0 || i >= toks.len() {
        Err(("Expected a sub-expression."@, last_char_of(prev)))
    } else {
        match toks[i].token {
            Token::Identifier(id) => infix_chain(toks, ExprTree::Variable(id@), i + 1, prec),
            Token::StringLiteral(text) => infix_chain(toks, ExprTree::Text(text@), i + 1, prec),
            Token::IntegerLiteral(v) => infix_chain(toks, ExprTree::Integer(v), i + 1, prec),
            Token::Symbol(sym) => {
                if sym == Symbol::Plus || sym == Symbol::Minus || sym == Symbol::Exclamation {
                    match sub_expression_at(toks, i, toks[i].span, Precedence::Prefix) {
                        Ok((x, m)) => {
                            if i < m <= toks.len() {
                                let wrapped = if sym == Symbol::Plus {
                                    ExprTree::Plus(Box::new(x))
                                } else if sym == Symbol::Minus {
                                    ExprTree::Minus(Box::new(x))
                                } else {
                                    ExprTree::Not(Box::new(x))
                                };
                                infix_chain(toks, wrapped, m, prec)
                            } else {
                                Err(stalled())
                            }
                        },
                        Err(f) => Err(f),
                    }
                } else if sym == Symbol::ParenOpen {
                    match sub_expression_at(toks, i, toks[i].span, Precedence::Default) {
                        Ok((x, m)) => {
                            if i < m < toks.len() && toks[m].token == Token::Symbol(Symbol::ParenClose) {
                                infix_chain(toks, ExprTree::Group(Box::new(x)), m + 1, prec)
                            } else if i < m <= toks.len() {
                                Err(("Expected closing parenthesis."@, failure_span(toks, m, toks[m - 1].span)))
                            } else {
                                Err(stalled())
                            }
                        },
                        Err(f) => Err(f),
                    }
                } else {
                    Err((unknown_symbol(sym), toks[i].span))
                }
            },
            _ => Err(("Expected valid sub-expression."@, toks[i].span)),
        }
    }
}

/// The operators that follow the operand `left`, from token `k` on, applied while each binds
/// tighter than `prec`; the tree and the index just past it, or the failure.
pub open spec fn infix_chain(toks: Seq<SourceToken>, left: ExprTree, k: int, prec: Precedence) -> Result<
    (ExprTree, int),
    (Seq<char>, Span),
>
    decreases toks.len() - k, 2int,
{
    if k < 1 || k >= toks.len() {
        Ok((left, k))
    } else if level_of(prec) >= level_of(precedence_of(toks[k].token)) {
        Ok((left, k))
    } else if toks[k].token == Token::Symbol(Symbol::ParenOpen) {
        match toks[k - 1].token {
            Token::Identifier(id) => match call_arguments(toks, k, Seq::empty()) {
                Ok((args, m)) => {
                    if k < m <= toks.len() {
                        infix_chain(toks, ExprTree::Call(id@, args), m, prec)
                    } else {
                        Err(stalled())
                    }
                },
                Err(f) => Err(f),
            },
            _ => Err(("Cannot call function on non-identifier."@, toks[k - 1].span)),
        }
    } else if toks[k].token == Token::Symbol(Symbol::Plus) || toks[k].token == Token::Symbol(Symbol::Minus) {
        match sub_expression_at(toks, k, toks[k].span, Precedence::Sum) {
            Ok((right, m)) => {
                if k < m <= toks.len() {
                    let combined = if toks[k].token == Token::Symbol(Symbol::Plus) {
                        ExprTree::Add(Box::new(left), Box::new(right))
                    } else {
                        ExprTree::Sub(Box::new(left), Box::new(right))
                    };
                    infix_chain(toks, combined, m, prec)
                } else {
                    Err(stalled())
                }
            },
            Err(f) => Err(f),
        }
    } else {
        Err((unknown_symbol(toks[k].token->Symbol_0), toks[k].span))
    }
}

/// The arguments of a call whose `(` or latest `,` is token `j`, `acc` holding those read so
/// far: their trees and the index just past the closing parenthesis, or the failure.
pub open spec fn call_arguments(toks: Seq<SourceToken>, j: int, acc: Seq<ExprTree>) -> Result<
    (Seq<ExprTree>, int),
    (Seq<char>, Span),
>
    decreases toks.len() - j, 1int,
{
    if acc.len() == 0 && j + 1 < toks.len() && toks[j + 1].token == Token::Symbol(Symbol::ParenClose) {
        Ok((acc, j + 2))
    } else if j < 0 || j >= toks.len() {
        Err(stalled())
    } else {
        match sub_expression_at(toks, j, toks[j].span, Precedence::Default) {
            Ok((a, m)) => {
                if j < m < toks.len() && toks[m].token == Token::Symbol(Symbol::Comma) {
                    call_arguments(toks, m, acc.push(a))
                } else if j < m < toks.len() && toks[m].token == Token::Symbol(Symbol::ParenClose) {
                    Ok((acc.push(a), m + 1))
                } else if j < m <= toks.len() {
                    Err(("Expected closing parenthesis."@, failure_span(toks, m, toks[m - 1].span)))
                } else {
                    Err(stalled())
                }
            },
            Err(f) => Err(f),
        }
    }
}

/// Parse a [SubExpression] starting just after `starting_index`, by precedence climbing: an
/// operator is taken into it only where it binds tighter than `precedence`, so that operators of
/// one precedence associate to the left.
///
/// A group must be closed by `)`, and a call may have no arguments. `*` and `/` have a precedence
/// but no meaning yet: where one would be applied the parse fails with an unknown symbol. The
/// end of the input ends a sub-expression as any token of no precedence does.
///
/// Returns the sub-expression and the index just past it.
pub fn parse_sub_expression<'a>(
    file: &File,
    tokens: &'a Vec<SourceToken>,
    starting_index: &usize,
    starting_token: &SourceToken,
    precedence: Precedence,
) -> (r: Result<(SubExpression, usize), Failure>)
    requires
        *starting_index < tokens@.len(),
    ensures
        match sub_expression_at(tokens@, *starting_index as int, starting_token.span, precedence) {
            Ok((t, n)) => r matches Ok((e, k)) && tree_of(e) == t && k == n,
            Err((msg, span)) => r matches Err(f) && f.message@ == msg && f.span == span,
        },
        r matches Ok((e, k)) ==> *starting_index + 1 < k <= tokens@.len(),
    decreases tokens@.len() - *starting_index,
{
    let token_count = tokens.len();
    let mut next_index = *starting_index + 1;
    let ghost toks = tokens@;
    let ghost s = *starting_index as int;

    let (next_token, _) = get_next_token(
        tokens,
        next_index,
        starting_token,
        any_token,
        "Expected a sub-expression.".to_owned(),
    )?;

    // http://journal.stuffwithstuff.com/2011/03/19/pratt-parsers-expression-parsing-made-easy/

    // parse the prefix; afterwards next_index is the first token after it
    let mut left = match &next_token.token {
        Token::Identifier(id) => {
            next_index = next_index + 1;
            SubExpression::Variable(id.clone())
        },
        Token::StringLiteral(text) => {
            next_index = next_index + 1;
            SubExpression::StringLiteral(text.clone())
        },
        Token::IntegerLiteral(value) => {
            next_index = next_index + 1;
            SubExpression::IntegerLiteral(*value)
        },
        Token::Symbol(sym) => {
            let sym = *sym;
            if sym == Symbol::Plus || sym == Symbol::Minus || sym == Symbol::Exclamation {
                let (rhs, new_next_index) = parse_sub_expression(file, tokens, &next_index, next_token, Precedence::Prefix)?;
                next_index = new_next_index;
                SubExpression::Prefix(
                    if sym == Symbol::Plus {
                        Prefix::Plus(Box::new(rhs))
                    } else if sym == Symbol::Minus {
                        Prefix::Minus(Box::new(rhs))
                    } else {
                        Prefix::Not(Box::new(rhs))
                    },
                )
            } else if sym == Symbol::ParenOpen {
                let (rhs, new_next_index) = parse_sub_expression(file, tokens, &next_index, next_token, Precedence::Default)?;
                if !token_is(&Token::Symbol(Symbol::ParenClose), tokens, new_next_index) {
                    let span = if new_next_index < token_count {
                        tokens[new_next_index].span
                    } else {
                        tokens[new_next_index - 1].span.to_last_char()
                    };
                    return Err(Failure { message: "Expected closing parenthesis.".to_owned(), span });
                }
                next_index = new_next_index + 1;
                SubExpression::Prefix(Prefix::Group(Box::new(rhs)))
            } else {
                return Err(Failure { message: unknown_symbol_message(sym), span: next_token.span });
            }
        },
        _ => {
            return Err(Failure { message: "Expected valid sub-expression.".to_owned(), span: next_token.span });
        },
    };

    let ghost goal = sub_expression_at(toks, s, starting_token.span, precedence);
    assert(goal == infix_chain(toks, tree_of(left), next_index as int, precedence));

    loop
        invariant
            token_count == tokens@.len(),
            toks == tokens@,
            s == *starting_index,
            s + 2 <= next_index <= token_count,
            goal == sub_expression_at(toks, s, starting_token.span, precedence),
            goal == infix_chain(toks, tree_of(left), next_index as int, precedence),
        decreases token_count - next_index,
    {
        if next_index >= token_count {
            return Ok((left, next_index));
        }
        let infix_token = &tokens[next_index];
        let infix_precedence = get_precedence(&infix_token.token);

        if precedence.level() >= infix_precedence.level() {
            return Ok((left, next_index));
        }

        left = match &infix_token.token {
            Token::Symbol(Symbol::ParenOpen) => {
                let prev_token = &tokens[next_index - 1];
                if let Token::Identifier(id) = &prev_token.token {
                    let call_index = next_index;
                    let mut arguments: Vec<SubExpression> = Vec::new();
                    let ghost call_goal = call_arguments(toks, call_index as int, Seq::empty());
                    assert(trees_of(arguments@) =~= Seq::<ExprTree>::empty());

                    if token_is(&Token::Symbol(Symbol::ParenClose), tokens, next_index + 1) {
                        next_index = next_index + 2;
                    } else {
                        loop
                            invariant_except_break
                                call_index <= next_index < token_count,
                                call_goal == call_arguments(toks, next_index as int, trees_of(arguments@)),
                                next_index > call_index ==> arguments@.len() > 0,
                                next_index == call_index ==> arguments@.len() == 0,
                                next_index == call_index ==> !(call_index + 1 < token_count
                                    && toks[call_index + 1].token == Token::Symbol(Symbol::ParenClose)),
                            invariant
                                token_count == tokens@.len(),
                                toks == tokens@,
                                s == *starting_index,
                                s + 2 <= call_index,
                                call_goal == call_arguments(toks, call_index as int, Seq::empty()),
                                goal == sub_expression_at(toks, s, starting_token.span, precedence),
                                call_goal is Err ==> goal == Err::<(ExprTree, int), (Seq<char>, Span)>(call_goal->Err_0),
                            ensures
                                call_index + 1 < next_index <= token_count,
                                call_goal == Ok::<(Seq<ExprTree>, int), (Seq<char>, Span)>(
                                    (trees_of(arguments@), next_index as int),
                                ),
                            decreases token_count - next_index,
                        {
                            let (rhs, new_next_index) = parse_sub_expression(
                                file,
                                tokens,
                                &next_index,
                                &tokens[next_index],
                                Precedence::Default,
                            )?;
                            let ghost before = arguments@;
                            arguments.push(rhs);
                            assert(trees_of(arguments@) =~= trees_of(before).push(tree_of(rhs)));

                            if token_is(&Token::Symbol(Symbol::Comma), tokens, new_next_index) {
                                next_index = new_next_index;
                            } else if token_is(&Token::Symbol(Symbol::ParenClose), tokens, new_next_index) {
                                next_index = new_next_index + 1;
                                break;
                            } else {
                                let span = if new_next_index < token_count {
                                    tokens[new_next_index].span
                                } else {
                                    tokens[new_next_index - 1].span.to_last_char()
                                };
                                return Err(Failure { message: "Expected closing parenthesis.".to_owned(), span });
                            }
                        }
                    }
                    let call = SubExpression::FunctionCall(id.clone(), arguments);
                    proof {
                        let args = call->FunctionCall_1;
                        assert(tree_of(call) == ExprTree::Call(id@, trees_of(args@))) by {
                            assert(tree_of(call)->Call_1 =~= trees_of(args@));
                        }
                    }
                    call
                } else {
                    return Err(
                        Failure { message: "Cannot call function on non-identifier.".to_owned(), span: prev_token.span },
                    );
                }
            },
            Token::Symbol(sym) => {
                let sym = *sym;
                if sym == Symbol::Plus || sym == Symbol::Minus {
                    let (rhs, new_next_index) = parse_sub_expression(file, tokens, &next_index, infix_token, infix_precedence)?;
                    next_index = new_next_index;
                    SubExpression::Infix(
                        if sym == Symbol::Plus {
                            Infix::Add(Box::new(left), Box::new(rhs))
                        } else {
                            Infix::Sub(Box::new(left), Box::new(rhs))
                        },
                    )
                } else {
                    return Err(Failure { message: unknown_symbol_message(sym), span: infix_token.span });
                }
            },
            _ => {
                return Ok((left, next_index));
            },
        };
    }
}

} // verus!
