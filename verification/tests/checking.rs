//! The type-checking pass: declarations, dimension rules per operator,
//! constant exponents, function signatures, and the error taxonomy.

use numbat::ast::{BinaryOperator, DimensionExpression, Expression, Statement};
use numbat::error::TypeCheckErrorKind;
use numbat::rational::Rational;
use numbat::span::Span;
use numbat::typechecker::TypeChecker;
use numbat::typed_ast;

fn sp() -> Span {
    Span::none()
}

fn scalar(n: i64) -> Expression {
    Expression::Scalar(sp(), Rational::from_int(n))
}

fn ident(name: &str) -> Expression {
    Expression::Identifier(sp(), name.to_owned())
}

fn binop(op: BinaryOperator, lhs: Expression, rhs: Expression) -> Expression {
    Expression::BinaryOperator(sp(), op, Box::new(lhs), Box::new(rhs))
}

/// `n unit` as written in source is multiplication of a scalar by a unit name.
fn quantity(n: i64, unit: &str) -> Expression {
    binop(BinaryOperator::Mul, scalar(n), ident(unit))
}

fn session_with_si() -> TypeChecker {
    let mut tc = TypeChecker::new();
    tc.check_statement(&Statement::DeclareDimension(sp(), "Length".to_owned()))
        .unwrap();
    tc.check_statement(&Statement::DeclareDimension(sp(), "Time".to_owned()))
        .unwrap();
    tc.check_statement(&Statement::DeclareBaseUnit(
        sp(),
        "meter".to_owned(),
        DimensionExpression::Dimension(sp(), "Length".to_owned()),
    ))
    .unwrap();
    tc.check_statement(&Statement::DeclareBaseUnit(
        sp(),
        "second".to_owned(),
        DimensionExpression::Dimension(sp(), "Time".to_owned()),
    ))
    .unwrap();
    tc
}

fn type_of(tc: &mut TypeChecker, e: Expression) -> typed_ast::Type {
    match tc.check_statement(&Statement::Expression(e)).unwrap() {
        typed_ast::Statement::Expression(te) => te.get_type(),
        _ => panic!("expected an expression statement"),
    }
}

#[test]
fn duplicate_dimension_fails_and_keeps_the_first_binding() {
    let mut tc = TypeChecker::new();
    assert!(tc
        .check_statement(&Statement::DeclareDimension(sp(), "Length".to_owned()))
        .is_ok());
    let err = tc
        .check_statement(&Statement::DeclareDimension(sp(), "Length".to_owned()))
        .unwrap_err();
    assert_eq!(err.kind, TypeCheckErrorKind::DuplicateDimension);
    assert_eq!(tc.registry.dimensions.len(), 1);
    assert_eq!(tc.registry.dimension_id("Length"), Some(0));
}

#[test]
fn addition_of_equal_dimensions_succeeds() {
    // 3 meter + 2 meter : Length
    let mut tc = session_with_si();
    let t = type_of(
        &mut tc,
        binop(BinaryOperator::Add, quantity(3, "meter"), quantity(2, "meter")),
    );
    let meter = tc.registry.unit_type("meter").unwrap();
    assert_eq!(t, meter);
}

#[test]
fn addition_of_unequal_dimensions_fails_with_both_types() {
    // 3 meter + 2 second : IncompatibleDimensions(Length, Time, Add)
    let mut tc = session_with_si();
    let err = tc
        .check_statement(&Statement::Expression(binop(
            BinaryOperator::Add,
            quantity(3, "meter"),
            quantity(2, "second"),
        )))
        .unwrap_err();
    let meter = tc.registry.unit_type("meter").unwrap();
    let second = tc.registry.unit_type("second").unwrap();
    match err.kind {
        TypeCheckErrorKind::IncompatibleDimensions {
            expected,
            found,
            operation,
            argument,
        } => {
            assert_eq!(expected, meter);
            assert_eq!(found, second);
            assert_eq!(operation, Some(BinaryOperator::Add));
            assert_eq!(argument, None);
        }
        other => panic!("expected IncompatibleDimensions, got {:?}", other),
    }
}

#[test]
fn rechecking_the_same_expression_gives_the_same_type() {
    let mut tc = session_with_si();
    let e1 = binop(
        BinaryOperator::Div,
        quantity(3, "meter"),
        binop(
            BinaryOperator::Power,
            quantity(2, "second"),
            scalar(2),
        ),
    );
    let e2 = binop(
        BinaryOperator::Div,
        quantity(3, "meter"),
        binop(
            BinaryOperator::Power,
            quantity(2, "second"),
            scalar(2),
        ),
    );
    let t1 = type_of(&mut tc, e1);
    let t2 = type_of(&mut tc, e2);
    assert_eq!(t1, t2);
}

#[test]
fn power_by_a_variable_is_an_unsupported_exponent() {
    let mut tc = session_with_si();
    tc.check_statement(&Statement::DeclareVariable(
        sp(),
        "n".to_owned(),
        scalar(2),
    ))
    .unwrap();
    let err = tc
        .check_statement(&Statement::Expression(binop(
            BinaryOperator::Power,
            ident("meter"),
            ident("n"),
        )))
        .unwrap_err();
    assert_eq!(err.kind, TypeCheckErrorKind::UnsupportedExponent);
}

#[test]
fn power_by_a_literal_scales_every_exponent() {
    // (meter / second) ^ 3 : Length^3 Time^-3
    let mut tc = session_with_si();
    let t = type_of(
        &mut tc,
        binop(
            BinaryOperator::Power,
            binop(BinaryOperator::Div, ident("meter"), ident("second")),
            scalar(3),
        ),
    );
    assert_eq!(t.factors.len(), 2);
    assert_eq!(t.factors[0].1.num, 3);
    assert_eq!(t.factors[0].1.den, 1);
    assert_eq!(t.factors[1].1.num, -3);
    assert_eq!(t.factors[1].1.den, 1);
}

#[test]
fn derived_unit_hertz_is_inverse_time() {
    // derived unit hertz = 1 / second
    let mut tc = session_with_si();
    tc.check_statement(&Statement::DeclareDerivedUnit(
        sp(),
        "hertz".to_owned(),
        binop(BinaryOperator::Div, scalar(1), ident("second")),
    ))
    .unwrap();
    let hertz = tc.registry.unit_type("hertz").unwrap();
    let second = tc.registry.unit_type("second").unwrap();
    assert_eq!(hertz, second.invert());
    assert_eq!(hertz.factors.len(), 1);
    assert_eq!(hertz.factors[0].1.num, -1);
    assert_eq!(hertz.factors[0].1.den, 1);
}

fn declare_speed(tc: &mut TypeChecker) {
    // fn speed(d: Length, t: Time) -> Length/Time = d / t
    tc.check_statement(&Statement::DeclareFunction(
        sp(),
        "speed".to_owned(),
        vec![
            (
                "d".to_owned(),
                DimensionExpression::Dimension(sp(), "Length".to_owned()),
            ),
            (
                "t".to_owned(),
                DimensionExpression::Dimension(sp(), "Time".to_owned()),
            ),
        ],
        Some(binop(BinaryOperator::Div, ident("d"), ident("t"))),
        Some(DimensionExpression::Divide(
            sp(),
            Box::new(DimensionExpression::Dimension(sp(), "Length".to_owned())),
            Box::new(DimensionExpression::Dimension(sp(), "Time".to_owned())),
        )),
    ))
    .unwrap();
}

#[test]
fn calling_a_function_checks_each_argument_type() {
    let mut tc = session_with_si();
    declare_speed(&mut tc);
    // speed(5 meter, 2 second) : Length / Time
    let t = type_of(
        &mut tc,
        Expression::FunctionCall(
            sp(),
            "speed".to_owned(),
            vec![quantity(5, "meter"), quantity(2, "second")],
        ),
    );
    assert_eq!(t.factors.len(), 2);
    assert_eq!(t.factors[0].1.num, 1);
    assert_eq!(t.factors[1].1.num, -1);
    // speed(5 meter, 2 meter) fails on argument 2: expected Time, found Length.
    let err = tc
        .check_statement(&Statement::Expression(Expression::FunctionCall(
            sp(),
            "speed".to_owned(),
            vec![quantity(5, "meter"), quantity(2, "meter")],
        )))
        .unwrap_err();
    let meter = tc.registry.unit_type("meter").unwrap();
    let second = tc.registry.unit_type("second").unwrap();
    match err.kind {
        TypeCheckErrorKind::IncompatibleDimensions {
            expected,
            found,
            operation,
            argument,
        } => {
            assert_eq!(expected, second);
            assert_eq!(found, meter);
            assert_eq!(operation, None);
            assert_eq!(argument, Some(2));
        }
        other => panic!("expected IncompatibleDimensions, got {:?}", other),
    }
}

#[test]
fn wrong_arity_is_an_arity_error() {
    let mut tc = session_with_si();
    declare_speed(&mut tc);
    let err = tc
        .check_statement(&Statement::Expression(Expression::FunctionCall(
            sp(),
            "speed".to_owned(),
            vec![quantity(5, "meter")],
        )))
        .unwrap_err();
    match err.kind {
        TypeCheckErrorKind::ArityError {
            callee,
            expected_count,
            found_count,
        } => {
            assert_eq!(callee, "speed");
            assert_eq!(expected_count, 2);
            assert_eq!(found_count, 1);
        }
        other => panic!("expected ArityError, got {:?}", other),
    }
}

#[test]
fn undefined_identifiers_are_reported() {
    let mut tc = TypeChecker::new();
    let err = tc
        .check_statement(&Statement::Expression(ident("furlong")))
        .unwrap_err();
    assert_eq!(
        err.kind,
        TypeCheckErrorKind::UndefinedIdentifier("furlong".to_owned())
    );
}

#[test]
fn redeclaring_a_variable_in_the_same_scope_fails() {
    let mut tc = TypeChecker::new();
    tc.check_statement(&Statement::DeclareVariable(
        sp(),
        "x".to_owned(),
        scalar(1),
    ))
    .unwrap();
    let err = tc
        .check_statement(&Statement::DeclareVariable(
            sp(),
            "x".to_owned(),
            scalar(2),
        ))
        .unwrap_err();
    assert_eq!(
        err.kind,
        TypeCheckErrorKind::Redeclaration("x".to_owned())
    );
}

#[test]
fn declared_return_type_must_match_the_inferred_one() {
    let mut tc = session_with_si();
    // fn f(d: Length) -> Time = d
    let err = tc
        .check_statement(&Statement::DeclareFunction(
            sp(),
            "f".to_owned(),
            vec![(
                "d".to_owned(),
                DimensionExpression::Dimension(sp(), "Length".to_owned()),
            )],
            Some(ident("d")),
            Some(DimensionExpression::Dimension(sp(), "Time".to_owned())),
        ))
        .unwrap_err();
    assert!(matches!(
        err.kind,
        TypeCheckErrorKind::ReturnTypeMismatch { .. }
    ));
}

#[test]
fn self_referential_inference_is_rejected() {
    let mut tc = session_with_si();
    // fn f(d: Length) = f(d)
    let err = tc
        .check_statement(&Statement::DeclareFunction(
            sp(),
            "f".to_owned(),
            vec![(
                "d".to_owned(),
                DimensionExpression::Dimension(sp(), "Length".to_owned()),
            )],
            Some(Expression::FunctionCall(
                sp(),
                "f".to_owned(),
                vec![ident("d")],
            )),
            None,
        ))
        .unwrap_err();
    assert_eq!(
        err.kind,
        TypeCheckErrorKind::RecursiveInference("f".to_owned())
    );
}

#[test]
fn function_without_body_or_return_type_is_invalid() {
    let mut tc = session_with_si();
    let err = tc
        .check_statement(&Statement::DeclareFunction(
            sp(),
            "f".to_owned(),
            vec![],
            None,
            None,
        ))
        .unwrap_err();
    assert_eq!(err.kind, TypeCheckErrorKind::InvalidDimensionExpression);
}

#[test]
fn exponent_overflow_is_reported() {
    let mut tc = session_with_si();
    let err = tc
        .check_statement(&Statement::Expression(binop(
            BinaryOperator::Power,
            binop(
                BinaryOperator::Power,
                ident("meter"),
                scalar(i64::MAX),
            ),
            scalar(i64::MAX),
        )))
        .unwrap_err();
    assert_eq!(err.kind, TypeCheckErrorKind::ExponentOverflow);
}

#[test]
fn parameters_shadow_and_leave_scope() {
    let mut tc = session_with_si();
    // fn f(x: Length) -> Length = x; afterwards x is undefined again.
    tc.check_statement(&Statement::DeclareFunction(
        sp(),
        "f".to_owned(),
        vec![(
            "x".to_owned(),
            DimensionExpression::Dimension(sp(), "Length".to_owned()),
        )],
        Some(ident("x")),
        None,
    ))
    .unwrap();
    let err = tc
        .check_statement(&Statement::Expression(ident("x")))
        .unwrap_err();
    assert_eq!(
        err.kind,
        TypeCheckErrorKind::UndefinedIdentifier("x".to_owned())
    );
}

#[test]
fn scalars_are_dimensionless() {
    let mut tc = TypeChecker::new();
    let t = type_of(&mut tc, scalar(42));
    assert!(t.factors.is_empty());
}
