//! The untyped syntax tree, as handed over by an external parser. Every
//! node carries the span it was parsed from. Numeric literals are exact
//! rationals: exponents must never pass through floating point.

use vstd::prelude::*;
use crate::rational::Rational;
use crate::span::Span;

verus! {

/// A numeric literal. At the literal level its dimension type is always
/// unity; a physical dimension is attached by the surrounding expression.
pub type Number = Rational;

/// The binary operators of the expression grammar.
#[derive(Debug, Clone, Copy, PartialEq, Eq, Structural)]
pub enum BinaryOperator {
    Add,
    Sub,
    Mul,
    Div,
    Power,
}

/// The procedures a program may call; their arguments are type-checked but
/// otherwise unconstrained.
#[derive(Debug, Clone, Copy, PartialEq, Eq, Structural)]
pub enum ProcedureKind {
    Print,
    AssertEq,
}

/// An untyped expression.
#[derive(Debug)]
pub enum Expression {
    Scalar(Span, Number),
    Identifier(Span, String),
    Negate(Span, Box<Expression>),
    BinaryOperator(Span, BinaryOperator, Box<Expression>, Box<Expression>),
    FunctionCall(Span, String, Vec<Expression>),
}

impl Expression {
    /// The span this expression was parsed from.
    pub fn span(&self) -> (r: Span)
        ensures
            r == self.spec_span(),
    {
        match self {
            Expression::Scalar(s, _) => *s,
            Expression::Identifier(s, _) => *s,
            Expression::Negate(s, _) => *s,
            Expression::BinaryOperator(s, _, _, _) => *s,
            Expression::FunctionCall(s, _, _) => *s,
        }
    }

    pub open spec fn spec_span(self) -> Span {
        match self {
            Expression::Scalar(s, _) => s,
            Expression::Identifier(s, _) => s,
            Expression::Negate(s, _) => s,
            Expression::BinaryOperator(s, _, _, _) => s,
            Expression::FunctionCall(s, _, _) => s,
        }
    }
}

/// A dimension expression: a product, ratio or integer power of named
/// dimensions, or unity. Resolved against the registry into a dimension
/// type when a base unit or a function signature is declared.
#[derive(Debug)]
pub enum DimensionExpression {
    Unity(Span),
    Dimension(Span, String),
    Multiply(Span, Box<DimensionExpression>, Box<DimensionExpression>),
    Divide(Span, Box<DimensionExpression>, Box<DimensionExpression>),
    Power(Span, Box<DimensionExpression>, i64),
}

/// An untyped statement.
#[derive(Debug)]
pub enum Statement {
    /// A bare expression.
    Expression(Expression),
    /// `let <name> = <expr>`.
    DeclareVariable(Span, String, Expression),
    /// `fn <name>(<param>: <dimension>, ...) [-> <dimension>] [= <body>]`.
    DeclareFunction(
        Span,
        String,
        Vec<(String, DimensionExpression)>,
        Option<Expression>,
        Option<DimensionExpression>,
    ),
    /// `dimension <name>`.
    DeclareDimension(Span, String),
    /// `unit <name>: <dimension>`.
    DeclareBaseUnit(Span, String, DimensionExpression),
    /// `derived unit <name> = <expr>`.
    DeclareDerivedUnit(Span, String, Expression),
    /// `<procedure>(<args>...)`.
    ProcedureCall(Span, ProcedureKind, Vec<Expression>),
}

} // verus!
