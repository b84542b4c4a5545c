use vstd::prelude::*;
use vstd::string::*;

use crate::names::NameMap;
use crate::span::Span;
use crate::text::push_char;

verus! {

/// Something holding a body of expressions.
pub trait Block {
    spec fn body(&self) -> Seq<Expression>;

    fn expressions(&self) -> (r: &Vec<Expression>)
        ensures
            r@ == self.body(),
    ;
}

/// Something that names a type by its full dotted path.
pub trait ToTypeReference {
    spec fn type_reference(&self) -> Seq<char>;

    fn as_type_reference(&self) -> (r: String)
        ensures
            r@ == self.type_reference(),
    ;
}

#[derive(Debug)]
pub struct DefinedFunction {
    pub identifier: (String, Span),
    pub visibility: (Visibility, Option<Span>),
    pub arguments: NameMap<ResolvedType>,
    pub expressions: Vec<Expression>,
    pub returns: ResolvedType,
}

impl Block for DefinedFunction {
    open spec fn body(&self) -> Seq<Expression> {
        self.expressions@
    }

    fn expressions(&self) -> (r: &Vec<Expression>) {
        &self.expressions
    }
}

#[derive(Debug)]
pub struct AnonymousFunction {
    arguments: NameMap<(Span, ResolvedType)>,
    returns: ResolvedType,
    expressions: Vec<Expression>,
}

impl Block for AnonymousFunction {
    closed spec fn body(&self) -> Seq<Expression> {
        self.expressions@
    }

    fn expressions(&self) -> (r: &Vec<Expression>) {
        &self.expressions
    }
}

#[derive(Debug)]
pub enum Function {
    Regular(DefinedFunction),
    Anonymous(AnonymousFunction),
}

#[derive(Debug)]
pub enum Prefix {
    Not(Box<SubExpression>),
    Minus(Box<SubExpression>),
    Plus(Box<SubExpression>),
    Group(Box<SubExpression>),
}

#[derive(Debug)]
pub enum Infix {
    Add(Box<SubExpression>, Box<SubExpression>),
    Sub(Box<SubExpression>, Box<SubExpression>),
}

#[derive(Debug)]
pub enum SubExpression {
    FunctionCall(String, Vec<SubExpression>),
    StringLiteral(String),
    IntegerLiteral(i64),
    Variable(String),
    Prefix(Prefix),
    Infix(Infix),
}

#[derive(Debug)]
pub enum Expression {
    VariableDeclaration(VariableDeclaration),
    Return(SubExpression),
    SubExpression(SubExpression),
}

#[derive(Debug)]
pub struct VariableDeclaration {
    pub identifier: (String, Span),
    pub variable_type: ResolvedType,
    pub value: SubExpression,
}

#[derive(Clone, Copy, Debug, PartialEq, Eq, Structural)]
pub enum Visibility {
    Public,
    Private,
    Protected,
}

#[derive(Debug)]
pub struct ResolvedType {
    pub namespace: String,
    /// Static identifier for the type. Note that this does not include the namespace prefix.
    /// The token span will only be present if this was resolved by a user before compilation.
    pub identifier: (String, Option<Span>),
}

impl ToTypeReference for ResolvedType {
    open spec fn type_reference(&self) -> Seq<char> {
        dotted(self.namespace@, self.identifier.0@)
    }

    fn as_type_reference(&self) -> (r: String) {
        as_type_reference(self.namespace.as_str(), self.identifier.0.as_str())
    }
}

#[derive(Debug)]
pub struct Use {
    pub identifier: String,
    pub span: Span,
}

impl ToTypeReference for Use {
    open spec fn type_reference(&self) -> Seq<char> {
        self.identifier@
    }

    fn as_type_reference(&self) -> (r: String) {
        self.identifier.clone()
    }
}

/// `namespace` and `identifier` joined by a period.
pub open spec fn dotted(namespace: Seq<char>, identifier: Seq<char>) -> Seq<char> {
    namespace + seq!['.'] + identifier
}

/// The path segments joined by periods.
pub open spec fn joined(parts: Seq<Seq<char>>) -> Seq<char>
    decreases parts.len(),
{
    if parts.len() == 0 {
        Seq::empty()
    } else if parts.len() == 1 {
        parts[0]
    } else {
        dotted(joined(parts.drop_last()), parts.last())
    }
}

/// The full reference to `identifier` within `namespace`.
pub fn as_type_reference(namespace: &str, identifier: &str) -> (r: String)
    ensures
        r@ == dotted(namespace@, identifier@),
{
    let mut r = namespace.to_owned();
    push_char(&mut r, '.');
    r.append(identifier);
    r
}

impl<'a> ToTypeReference for Vec<&'a str> {
    open spec fn type_reference(&self) -> Seq<char> {
        joined(self@.map_values(|s: &str| s@))
    }

    fn as_type_reference(&self) -> (r: String) {
        let ghost parts = self@.map_values(|s: &str| s@);
        let mut r = String::new();
        let mut i: usize = 0;
        while i < self.len()
            invariant
                i <= self@.len(),
                parts == self@.map_values(|s: &str| s@),
                r@ == joined(parts.subrange(0, i as int)),
            decreases self@.len() - i,
        {
            if i > 0 {
                push_char(&mut r, '.');
            }
            r.append(self[i]);
            proof {
                let next = parts.subrange(0, i + 1);
                assert(next.drop_last() =~= parts.subrange(0, i as int));
                if i == 0 {
                    assert(r@ =~= next[0]);
                } else {
                    assert(r@ =~= dotted(joined(next.drop_last()), next.last()));
                }
            }
            i = i + 1;
        }
        assert(parts.subrange(0, self@.len() as int) =~= parts);
        r
    }
}

} // verus!
