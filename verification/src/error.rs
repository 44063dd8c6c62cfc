//! The error taxonomy of the type-checking core. Every error carries a
//! span; propagation is fail-fast within one statement.

use vstd::prelude::*;
use crate::ast::BinaryOperator;
use crate::registry::BaseRepresentation;
use crate::span::Span;

verus! {

/// What went wrong while type-checking one statement.
#[derive(Debug, Clone, PartialEq)]
pub enum TypeCheckErrorKind {
    /// A dimension was declared under a name that already denotes one.
    DuplicateDimension,
    /// A name was declared twice within the same scope.
    Redeclaration(String),
    /// A name was used that no scope binds.
    UndefinedIdentifier(String),
    /// Two operands (or an argument and its parameter) have different
    /// dimension types. `argument` is the one-based argument index when the
    /// mismatch is at a function call.
    IncompatibleDimensions {
        expected: BaseRepresentation,
        found: BaseRepresentation,
        operation: Option<BinaryOperator>,
        argument: Option<usize>,
    },
    /// An exponent was not a compile-time-constant rational expression.
    UnsupportedExponent,
    /// A function was called with the wrong number of arguments.
    ArityError { callee: String, expected_count: usize, found_count: usize },
    /// A declared return type differs from the body's inferred type.
    ReturnTypeMismatch { declared: BaseRepresentation, inferred: BaseRepresentation },
    /// Inferring a function's return type required checking a call of the
    /// function itself.
    RecursiveInference(String),
    /// A dimension expression could not be resolved into a type.
    InvalidDimensionExpression,
    /// An exponent left the machine-representable range.
    ExponentOverflow,
}

/// A span-tagged type-checking error.
#[derive(Debug, Clone, PartialEq)]
pub struct TypeCheckError {
    pub kind: TypeCheckErrorKind,
    pub span: Span,
}

} // verus!
