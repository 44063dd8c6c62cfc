//! The typed syntax tree: the immutable output of the type checker, every
//! node annotated with its statically determined dimension type.

use vstd::prelude::*;
use crate::ast::{BinaryOperator, Number, ProcedureKind};
use crate::registry::BaseRepresentation;

verus! {

/// The dimension type attached to every typed node.
pub type Type = BaseRepresentation;

/// A typed expression. A scalar literal is always of type unity; every
/// other variant carries its computed type.
#[derive(Debug)]
pub enum Expression {
    Scalar(Number),
    Identifier(String, Type),
    Negate(Box<Expression>, Type),
    BinaryOperator(BinaryOperator, Box<Expression>, Box<Expression>, Type),
    FunctionCall(String, Vec<Expression>, Type),
}

/// A typed statement.
#[derive(Debug)]
pub enum Statement {
    Expression(Expression),
    DeclareVariable(String, Expression, Type),
    DeclareFunction(String, Vec<(String, Type)>, Option<Expression>, Type),
    DeclareDimension(String),
    DeclareBaseUnit(String, Type),
    DeclareDerivedUnit(String, Expression),
    ProcedureCall(ProcedureKind, Vec<Expression>),
}

impl Expression {
    /// The canonical factor list of this expression's type. A scalar
    /// literal is dimensionless: the empty list.
    pub open spec fn spec_type_factors(self) -> Seq<(u64, crate::rational::Rational)> {
        match self {
            Expression::Scalar(_) => Seq::empty(),
            Expression::Identifier(_, t) => t.factors@,
            Expression::Negate(_, t) => t.factors@,
            Expression::BinaryOperator(_, _, _, t) => t.factors@,
            Expression::FunctionCall(_, _, t) => t.factors@,
        }
    }

    /// The dimension type of this expression.
    pub fn get_type(&self) -> (r: Type)
        ensures
            r.factors@ == self.spec_type_factors(),
    {
        match self {
            Expression::Scalar(_) => {
                let t = Type::unity();
                proof {
                    assert(t.factors@ =~= Seq::empty());
                }
                t
            },
            Expression::Identifier(_, type_) => type_.duplicate(),
            Expression::Negate(_, type_) => type_.duplicate(),
            Expression::BinaryOperator(_, _, _, type_) => type_.duplicate(),
            Expression::FunctionCall(_, _, type_) => type_.duplicate(),
        }
    }
}

} // verus!
