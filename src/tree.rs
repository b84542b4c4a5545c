use vstd::prelude::*;

use crate::statement::{Infix, Prefix, SubExpression};

verus! {

/// The shape of a sub-expression, with names and text as character sequences: what contracts
/// say a parse yields.
pub enum ExprTree {
    Call(Seq<char>, Seq<ExprTree>),
    Text(Seq<char>),
    Integer(i64),
    Variable(Seq<char>),
    Not(Box<ExprTree>),
    Minus(Box<ExprTree>),
    Plus(Box<ExprTree>),
    Group(Box<ExprTree>),
    Add(Box<ExprTree>, Box<ExprTree>),
    Sub(Box<ExprTree>, Box<ExprTree>),
}

/// The shape of `e`.
pub open spec fn tree_of(e: SubExpression) -> ExprTree
    decreases e,
    via tree_of_decreases
{
    match e {
        SubExpression::FunctionCall(name, args) => ExprTree::Call(
            name@,
            Seq::new(
                args@.len(),
                |i: int|
                    if 0 <= i < args@.len() {
                        tree_of(args@[i])
                    } else {
                        ExprTree::Integer(0)
                    },
            ),
        ),
        SubExpression::StringLiteral(s) => ExprTree::Text(s@),
        SubExpression::IntegerLiteral(v) => ExprTree::Integer(v),
        SubExpression::Variable(s) => ExprTree::Variable(s@),
        SubExpression::Prefix(p) => match p {
            Prefix::Not(x) => ExprTree::Not(Box::new(tree_of(*x))),
            Prefix::Minus(x) => ExprTree::Minus(Box::new(tree_of(*x))),
            Prefix::Plus(x) => ExprTree::Plus(Box::new(tree_of(*x))),
            Prefix::Group(x) => ExprTree::Group(Box::new(tree_of(*x))),
        },
        SubExpression::Infix(i) => match i {
            Infix::Add(a, b) => ExprTree::Add(Box::new(tree_of(*a)), Box::new(tree_of(*b))),
            Infix::Sub(a, b) => ExprTree::Sub(Box::new(tree_of(*a)), Box::new(tree_of(*b))),
        },
    }
}

/// Each argument of a call is smaller than the call, so `tree_of` ends.
#[via_fn]
proof fn tree_of_decreases(e: SubExpression) {
    broadcast use vstd::std_specs::vec::axiom_vec_decreases_to_view, vstd::seq::axiom_seq_index_decreases;

    match e {
        SubExpression::FunctionCall(name, args) => {
            assert forall|i: int| 0 <= i < args@.len() implies #[trigger] decreases_to!(e => args@[i]) by {
                assert(decreases_to!(e => args));
                assert(decreases_to!(args => args@));
                assert(decreases_to!(args@ => args@[i]));
            }
        },
        _ => {},
    }
}

} // verus!
