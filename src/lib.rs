//! The front end of a compiler for a small namespace-oriented language: a lexer that turns
//! source bytes into spanned tokens with their brace-delimited code blocks matched, and a
//! recursive-descent parser, with a precedence-climbing expression parser inside, that turns
//! those tokens into a file of use statements and function declarations.

pub mod span;
pub mod token;
pub mod text;
pub mod lexer;
pub mod scan;
pub mod names;
pub mod statement;
pub mod parser;
pub mod expect;
pub mod uses;
pub mod resolved_type;
pub mod arguments;
pub mod tree;
pub mod sub_expression;
pub mod expression;
pub mod function;
